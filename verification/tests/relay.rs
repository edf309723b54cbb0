use balancer::relay::{ingest_chunk, request_complete};

#[test]
fn finds_request_boundary() {
    assert!(request_complete(b"GET / HTTP/1.1\r\nHost: x\r\n\r\n"));
    assert!(request_complete(b"\r\n\r\n"));
    assert!(request_complete(b"abc\r\n\r\ndef"));
}

#[test]
fn no_boundary_in_incomplete_request() {
    assert!(!request_complete(b""));
    assert!(!request_complete(b"GET / HTTP/1.1"));
    assert!(!request_complete(b"\r\n\r"));
    assert!(!request_complete(b"\r\n \r\n"));
    assert!(!request_complete(b"\n\r\n\r"));
}

#[test]
fn ingest_accumulates_and_stops_at_boundary() {
    let mut buf: Vec<u8> = Vec::new();
    assert!(!ingest_chunk(&mut buf, b"GET / HTTP/1.1\r\n"));
    assert_eq!(buf, b"GET / HTTP/1.1\r\n");
    assert!(ingest_chunk(&mut buf, b"Host: x\r\n\r\nrest"));
    assert_eq!(buf, b"GET / HTTP/1.1\r\nHost: x\r\n\r\nrest");
}

#[test]
fn boundary_split_across_chunks_is_found() {
    let mut buf: Vec<u8> = Vec::new();
    assert!(!ingest_chunk(&mut buf, b"abc\r\n"));
    assert!(ingest_chunk(&mut buf, b"\r\ndef"));
}

#[test]
fn empty_chunk_means_client_closed() {
    let mut buf: Vec<u8> = Vec::new();
    assert!(!ingest_chunk(&mut buf, b"partial"));
    assert!(ingest_chunk(&mut buf, b""));
    assert_eq!(buf, b"partial");
}
