use disk_engine::cache::FileCache;
use disk_engine::download::HttpRange;
use disk_engine::fs::MemFs;
use disk_engine::job::{Config, JobRes, Request};

fn serve(ranges: Vec<HttpRange>, ranged: bool) -> (Vec<u8>, Vec<u8>) {
    let cfg = Config { session: b"/sess".to_vec(), directory: b"/dl".to_vec() };
    let mut fs = MemFs::new();
    let mut fc = FileCache::new(4);
    let file: Vec<u8> = (0..1000).map(|i| (i % 256) as u8).collect();
    let path = b"/dl/file.bin".to_vec();
    fs.write_range(&path, false, 0, 0, &file);
    let mut net = Vec::new();
    let mut req = Request::download(9, path, ranges, ranged, 1000).expect("header fits");
    loop {
        match req.execute(&mut fc, &mut fs, &cfg, 3, &mut net) {
            Ok(JobRes::Done) => break,
            Ok(JobRes::Paused(next)) => req = next,
            _ => panic!("unexpected download result"),
        }
    }
    (net, file)
}

#[test]
fn single_range_download() {
    let (net, file) = serve(vec![HttpRange { start: 200, length: 100 }], true);
    let expected_header = "HTTP/1.1 206 Partial Content\r\nContent-Length: 100\r\n\
                           Content-Range: bytes 200-299/1000\r\nAccept-Ranges: bytes\r\n\
                           Content-Type: application/octet-stream;\r\nConnection: Close\r\n\r\n";
    assert!(net.starts_with(expected_header.as_bytes()));
    assert_eq!(&net[expected_header.len()..], &file[200..300]);
}

#[test]
fn multipart_download() {
    let (net, file) = serve(
        vec![HttpRange { start: 0, length: 10 }, HttpRange { start: 100, length: 10 }],
        true,
    );
    let mut expected: Vec<u8> = Vec::new();
    expected.extend_from_slice(
        b"HTTP/1.1 206 Partial Content\r\nAccept-Ranges: bytes\r\n\
          Content-Type: multipart/byteranges; boundary=qxyllcqgNchqyob\r\nConnection: Close\r\n\r\n",
    );
    expected.extend_from_slice(
        b"\r\n--qxyllcqgNchqyob\r\nContent-Type: application/octet-stream\r\n\
          Content-Range: bytes 0-9/1000\r\n\r\n",
    );
    expected.extend_from_slice(&file[0..10]);
    expected.extend_from_slice(
        b"\r\n--qxyllcqgNchqyob\r\nContent-Type: application/octet-stream\r\n\
          Content-Range: bytes 100-109/1000\r\n\r\n",
    );
    expected.extend_from_slice(&file[100..110]);
    expected.extend_from_slice(b"\r\n--qxyllcqgNchqyob--");
    assert_eq!(net, expected);
}

#[test]
fn unranged_download_sends_whole_file_with_disposition() {
    let (net, file) = serve(vec![HttpRange { start: 0, length: 1000 }], false);
    let expected_header = "HTTP/1.1 200 OK\r\nAccept-Ranges: bytes\r\nContent-Length: 1000\r\n\
                           Content-Type: application/octet-stream\r\n\
                           Content-Disposition: attachment; filename=\"file.bin\"\r\n\
                           Connection: Close\r\n\r\n";
    assert!(net.starts_with(expected_header.as_bytes()));
    assert_eq!(&net[expected_header.len()..], &file[..]);
}

#[test]
fn download_pauses_when_the_slice_runs_out() {
    let cfg = Config { session: b"/sess".to_vec(), directory: b"/dl".to_vec() };
    let mut fs = MemFs::new();
    let mut fc = FileCache::new(4);
    let file: Vec<u8> = vec![7u8; 100_000];
    let path = b"/dl/big.bin".to_vec();
    fs.write_range(&path, false, 0, 0, &file);
    let mut net = Vec::new();
    let req = Request::download(9, path, vec![HttpRange { start: 0, length: 100_000 }], false,
        100_000)
        .unwrap();
    // one step only drains the header: the job must re-queue itself
    match req.execute(&mut fc, &mut fs, &cfg, 1, &mut net) {
        Ok(JobRes::Paused(Request::Download { client, .. })) => assert_eq!(client, 9),
        _ => panic!("expected Paused"),
    }
}
