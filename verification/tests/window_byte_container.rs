use sloppycomp::window_byte_container::ByteBuffer;
use sloppycomp::window_byte_container::ByteWindow;
use sloppycomp::window_byte_container::ByteWindowAdvance;
use sloppycomp::window_byte_container::IndexableByteWindow;

#[test]
fn push_all() {
    let mut search_buffer: ByteBuffer<u8> = ByteBuffer::new(4);
    search_buffer.push_all(&[b'a']);
    search_buffer.push_all(&[b'b', b'c', b'd', b'e']);

    assert_eq!(search_buffer.vec, vec![b'b', b'c', b'd', b'e']);
    search_buffer.push_all(&[b'z']);
    assert_eq!(search_buffer.vec, vec![b'c', b'd', b'e', b'z']);
}

fn assert_window_advance(
    byte_window: &mut ByteWindow,
    evicted: &[u8],
    admitted: &[u8],
    window: &[u8],
) {
    let door = byte_window.advance(1);
    assert_eq!(
        ByteWindowAdvance {
            evicted,
            admitted,
            window
        },
        door
    );
    assert_eq!(window, byte_window.window());
}

#[test]
fn advance_less_than_window_size() {
    let bytes = [b'b', b'c', b'd', b'e'];
    let mut byte_window = ByteWindow::with_max_window_size(&bytes, 2);

    assert_eq!([] as [u8; 0], byte_window.window());
    assert_window_advance(&mut byte_window, &[], &[b'b'], &[b'b']);
    assert_window_advance(&mut byte_window, &[], &[b'c'], &[b'b', b'c']);
    assert_window_advance(&mut byte_window, &[b'b'], &[b'd'], &[b'c', b'd']);
    assert_window_advance(&mut byte_window, &[b'c'], &[b'e'], &[b'd', b'e']);
    assert_window_advance(&mut byte_window, &[b'd'], &[], &[b'e']);
    assert_window_advance(&mut byte_window, &[b'e'], &[], &[]);
    assert_window_advance(&mut byte_window, &[], &[], &[]);
}

#[test]
fn advance_past_end_of_window() {
    let bytes = [b'b', b'c', b'd', b'e'];
    let mut byte_window = ByteWindow::with_max_window_size(&bytes, 2);

    let door = byte_window.advance(5);
    assert_eq!(
        ByteWindowAdvance {
            evicted: &[b'b', b'c', b'd'],
            admitted: &[b'b', b'c', b'd', b'e'],
            window: &[b'e']
        },
        door
    );
    assert_eq!([b'e'], byte_window.window());
}

#[test]
fn advance_past_end_of_window_byte_locations() {
    let bytes = [b'b', b'c', b'd', b'e'];
    let mut byte_window = IndexableByteWindow::with_max_window_size(&bytes, 2);

    byte_window.advance(5);

    assert_eq!(byte_window.byte_locations()[b'e' as usize], vec![3]);
}

#[test]
fn location_to_window_index() {
    let bytes = [b'b', b'c', b'd', b'e'];
    let mut byte_window = IndexableByteWindow::with_max_window_size(&bytes, 2);

    assert_eq!(0, byte_window.location_to_window_index(0));

    byte_window.advance(4);

    assert_eq!(0, byte_window.location_to_window_index(2));
    assert_eq!(1, byte_window.location_to_window_index(3));
}

#[test]
fn advance_to_pointer() {
    let bytes = [b'b', b'c', b'd', b'e'];
    let mut byte_window = ByteWindow::with_max_window_size(&bytes, 2);

    let door = byte_window.advance_to_pointer(3);
    assert_eq!(
        ByteWindowAdvance {
            evicted: &[b'b'],
            admitted: &[b'b', b'c', b'd'],
            window: &[b'c', b'd']
        },
        door
    );
    assert_eq!([b'c', b'd'], byte_window.window());
}
