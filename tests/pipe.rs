use kernel_core::file::make_pipe;
use kernel_core::pipe::{PipeProgress, PipeRingBuffer, RING_BUFFER_SIZE};

#[test]
fn ring_buffer_starts_empty() {
    let ring = PipeRingBuffer::new();
    assert_eq!(ring.available_read(), 0);
    assert_eq!(ring.available_write(), RING_BUFFER_SIZE);
}

#[test]
fn pipe_eof_after_writer_closes() {
    let mut pipes: Vec<PipeRingBuffer> = Vec::new();
    let (read_end, write_end) = make_pipe(&mut pipes);
    let data = b"abc".to_vec();
    let (progress, done) = write_end.write(&mut pipes[0], &data, 0);
    assert_eq!(progress, PipeProgress::Done(3));
    assert_eq!(done, 3);
    pipes[0].drop_writer();
    let mut buf: Vec<u8> = Vec::new();
    let r = read_end.read(&mut pipes[0], 10, &mut buf);
    assert_eq!(buf, b"abc".to_vec());
    assert_eq!(r, PipeProgress::Pending);
    let r2 = read_end.read(&mut pipes[0], 10, &mut buf);
    assert_eq!(r2, PipeProgress::Done(3));
    let mut again: Vec<u8> = Vec::new();
    let r3 = read_end.read(&mut pipes[0], 10, &mut again);
    assert_eq!(r3, PipeProgress::Done(0));
}
