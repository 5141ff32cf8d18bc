use kanata_listener::framing::{LineBuffer, CARRIAGE_RETURN, NEWLINE};

fn lines(items: &[&str]) -> Vec<Vec<u8>> {
    items.iter().map(|item| item.as_bytes().to_vec()).collect()
}

#[test]
fn the_terminator_bytes_are_line_feed_and_carriage_return() {
    assert_eq!(NEWLINE, b'\n');
    assert_eq!(CARRIAGE_RETURN, b'\r');
}

#[test]
fn a_new_buffer_holds_nothing() {
    let mut buffer = LineBuffer::new();
    assert!(buffer.is_empty());
    assert_eq!(buffer.len(), 0);
    assert_eq!(buffer.finish(), None);
}

#[test]
fn bytes_without_a_newline_wait() {
    let mut buffer = LineBuffer::new();
    assert_eq!(buffer.push(b"abc"), lines(&[]));
    assert_eq!(buffer.len(), 3);
    assert!(!buffer.is_empty());
    assert_eq!(buffer.push(b"def"), lines(&[]));
    assert_eq!(buffer.len(), 6);
    assert_eq!(buffer.push(b"\n"), lines(&["abcdef"]));
    assert_eq!(buffer.len(), 0);
}

#[test]
fn an_empty_chunk_changes_nothing() {
    let mut buffer = LineBuffer::new();
    assert_eq!(buffer.push(b"ab"), lines(&[]));
    assert_eq!(buffer.push(b""), lines(&[]));
    assert_eq!(buffer.len(), 2);
}

#[test]
fn several_lines_in_one_chunk_come_out_in_order() {
    let mut buffer = LineBuffer::new();
    assert_eq!(buffer.push(b"a\nbb\nccc\ndd"), lines(&["a", "bb", "ccc"]));
    assert_eq!(buffer.len(), 2);
    assert_eq!(buffer.push(b"dd\n"), lines(&["dddd"]));
}

#[test]
fn empty_lines_are_lines() {
    let mut buffer = LineBuffer::new();
    assert_eq!(buffer.push(b"\n\nx\n\n"), lines(&["", "", "x", ""]));
    assert!(buffer.is_empty());
}

#[test]
fn a_carriage_return_before_the_newline_is_stripped() {
    let mut buffer = LineBuffer::new();
    assert_eq!(buffer.push(b"one\r\ntwo\n\r\n"), lines(&["one", "two", ""]));
}

#[test]
fn only_one_carriage_return_is_stripped() {
    let mut buffer = LineBuffer::new();
    assert_eq!(buffer.push(b"x\r\r\n"), lines(&["x\r"]));
}

#[test]
fn a_carriage_return_inside_a_line_stays() {
    let mut buffer = LineBuffer::new();
    assert_eq!(buffer.push(b"a\rb\n"), lines(&["a\rb"]));
}

#[test]
fn a_terminator_cut_in_two_is_still_stripped() {
    let mut buffer = LineBuffer::new();
    assert_eq!(buffer.push(b"line\r"), lines(&[]));
    assert_eq!(buffer.len(), 5);
    assert_eq!(buffer.push(b"\nnext"), lines(&["line"]));
    assert_eq!(buffer.len(), 4);
}

#[test]
fn finish_hands_out_the_unfinished_line_as_it_is() {
    let mut buffer = LineBuffer::new();
    assert_eq!(buffer.push(b"done\npart\r"), lines(&["done"]));
    assert_eq!(buffer.finish(), Some(b"part\r".to_vec()));
    assert!(buffer.is_empty());
    assert_eq!(buffer.finish(), None);
}

#[test]
fn clear_forgets_the_unfinished_line() {
    let mut buffer = LineBuffer::new();
    assert_eq!(buffer.push(b"part"), lines(&[]));
    buffer.clear();
    assert!(buffer.is_empty());
    assert_eq!(buffer.push(b"ial\n"), lines(&["ial"]));
}

#[test]
fn byte_by_byte_gives_the_same_lines_as_all_at_once() {
    let stream = b"alpha\r\nbeta\n\ngamma\rdelta\nrest";
    let mut whole = LineBuffer::new();
    let all_at_once = whole.push(stream);
    let mut single = LineBuffer::new();
    let mut one_by_one = Vec::new();
    for byte in stream.iter() {
        one_by_one.extend(single.push(&[*byte]));
    }
    assert_eq!(all_at_once, lines(&["alpha", "beta", "", "gamma\rdelta"]));
    assert_eq!(one_by_one, all_at_once);
    assert_eq!(whole.finish(), Some(b"rest".to_vec()));
    assert_eq!(single.finish(), Some(b"rest".to_vec()));
}

#[test]
fn bytes_that_are_no_text_are_framed_like_any_other() {
    let mut buffer = LineBuffer::new();
    assert_eq!(buffer.push(&[0xff, 0x00, b'\n', 0xc3]), vec![vec![0xff, 0x00]]);
    assert_eq!(buffer.finish(), Some(vec![0xc3]));
}
