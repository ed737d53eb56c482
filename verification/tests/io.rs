use chainbuf::Chain;
use nix::sys::uio::writev;
use nix::unistd::{pipe, read};
use std::io::IoSlice;

fn letters(seed: u64, n: usize) -> String {
    let alphabet = b"ABCDEFGHIJKLMNOPQRSTUVWXYZabcdefghijklmnopqrstuvwxyz0123456789";
    let mut state = seed;
    let mut s = String::with_capacity(n);
    for _ in 0..n {
        state = state.wrapping_mul(6364136223846793005).wrapping_add(1442695040888963407);
        s.push(alphabet[((state >> 33) % (alphabet.len() as u64)) as usize] as char);
    }
    s
}

#[test]
fn test_write_to_fd_works() {
    // Run this test with some pipes so we don't have to mess around with
    // opening or closing files.
    let mut chain = Chain::new();

    let mut to_write = Vec::with_capacity(16 * 128);
    for i in 0usize..16 {
        let s: String = letters(i as u64, 128);
        let b = s.as_bytes();
        chain.append_bytes(b);
        to_write.extend(b.iter().map(|x| x.clone()));
    }
    let cl = chain.len();

    let pipe_res = pipe();
    assert!(pipe_res.is_ok());
    let (reader, writer) = pipe_res.ok().unwrap();
    // write all data
    let write_res = {
        let slices = chain.gather(None, None);
        let iov: Vec<IoSlice<'_>> = slices.iter().map(|s| IoSlice::new(s)).collect();
        writev(&writer, &iov)
    };
    let write_res = chain.drain_written(write_res);
    assert!(write_res.is_ok());
    let written = write_res.ok().unwrap();
    // written all data
    assert_eq!(to_write.len(), written);
    // written all that has been stored
    assert_eq!(written, cl);
    // chain has been drained
    assert_eq!(chain.len(), 0);
    let mut read_buf: Vec<u8> = std::iter::repeat(0u8).take(128 * 16).collect();
    let read_res = read(&reader, &mut read_buf[..]);
    assert!(read_res.is_ok());
    let read = read_res.ok().unwrap() as usize;
    // Check we have read as much as we written
    assert_eq!(read, written);
    assert_eq!(&to_write[..], &read_buf[..]);
    drop(writer);
    drop(reader);
}
