use deflate::chained_hash_table::WINDOW_SIZE;
use deflate::input_buffer::{InputBuffer, BUFFER_SIZE, MAX_MATCH};

#[test]
pub fn buffer_add_full() {
    let data = [10u8; BUFFER_SIZE + 10];
    let (mut buf, extra) = InputBuffer::new(&data[..]);
    assert_eq!(extra.unwrap(), &[10; 10]);
    let to_add = [2, 5, 3];
    let not_added = buf.add_data(&to_add);
    assert_eq!(not_added.unwrap(), to_add);
}

#[test]
pub fn buffer_add_not_full() {
    let data = [10u8; BUFFER_SIZE - 5];
    let (mut buf, extra) = InputBuffer::new(&data[..]);
    assert_eq!(buf.current_end(), data.len());
    assert_eq!(extra, None);
    let to_add = [2, 5, 3];
    {
        let not_added = buf.add_data(&to_add);
        assert!(not_added.is_none());
    }
    let not_added = buf.add_data(&to_add);
    assert_eq!(not_added.unwrap()[0], 3);
}

#[test]
fn slide() {
    let data = [10u8; BUFFER_SIZE];
    let (mut buf, extra) = InputBuffer::new(&data[..]);
    assert_eq!(extra, None);
    let to_add = [5; 5];
    let rem = buf.slide(&to_add);
    assert!(rem.is_none());
    {
        let slice = buf.get_buffer();
        assert!(slice[..WINDOW_SIZE + MAX_MATCH] == data[WINDOW_SIZE..]);
        assert_eq!(slice[WINDOW_SIZE + MAX_MATCH..WINDOW_SIZE + MAX_MATCH + 5], to_add);
    }
    assert_eq!(buf.current_end(), WINDOW_SIZE + MAX_MATCH + to_add.len());
}

#[test]
fn move_down() {
    let mut data = [10u8; BUFFER_SIZE - 300];
    *(data.last_mut().unwrap()) = 5;
    let (mut buf, extra) = InputBuffer::new(&data[..]);
    assert_eq!(extra, None);
    buf.move_down();
    assert_eq!(*buf.get_buffer().last().unwrap(), 5);
}

#[test]
fn empty_buffer_takes_data_in_order() {
    let mut buf = InputBuffer::empty();
    assert_eq!(buf.current_end(), 0);
    assert!(buf.add_data(&[1, 2, 3]).is_none());
    assert!(buf.add_data(&[4]).is_none());
    assert_eq!(buf.get_buffer(), &[1, 2, 3, 4]);
}
