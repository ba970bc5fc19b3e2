use file_service::flags::{Commands, FileCommand, Flags, IP, PORT};
use file_service::number::{decimal_digits, parse_u32};
use file_service::server::{parse_protocol, FileServer, Protocol};

#[test]
fn server_address() {
    assert_eq!(FileServer::new("127.0.0.1".to_string(), 10086).address(), "127.0.0.1:10086");
    assert_eq!(FileServer::new("0.0.0.0".to_string(), 0).address(), "0.0.0.0:0");
    assert_eq!(FileServer::new("::1".to_string(), 65535).address(), "::1:65535");
}

#[test]
fn protocols() {
    assert_eq!(parse_protocol("grpc"), Some(Protocol::Grpc));
    assert_eq!(parse_protocol("http_axum"), Some(Protocol::HttpAxum));
    assert_eq!(parse_protocol("http_actix"), Some(Protocol::HttpActix));
    assert_eq!(parse_protocol("http"), None);
    assert_eq!(parse_protocol("GRPC"), None);
}

#[test]
fn decimal_round_trip() {
    for n in [0u32, 7, 10, 100, 4096, 10086, u32::MAX] {
        let d = decimal_digits(n);
        assert_eq!(d, n.to_string().into_bytes());
        assert_eq!(parse_u32(&d), Some(n));
    }
    assert_eq!(parse_u32(b""), None);
    assert_eq!(parse_u32(b"+"), None);
    assert_eq!(parse_u32(b"+12"), Some(12));
    assert_eq!(parse_u32(b"1 2"), None);
}

#[test]
fn client_flags() {
    assert_eq!(IP, "127.0.0.1");
    assert_eq!(PORT, 10086);
    let f = Flags {
        ip: IP.to_string(),
        port: PORT,
        max_simultaneous: 4,
        command: Some(Commands::File {
            command: Some(FileCommand::MoveFile {
                src_files: vec!["/a".to_string()],
                destination_dir: "/b".to_string(),
            }),
        }),
    };
    match f.command {
        Some(Commands::File { command: Some(FileCommand::MoveFile { src_files, destination_dir }) }) => {
            assert_eq!(src_files, vec!["/a".to_string()]);
            assert_eq!(destination_dir, "/b");
        }
        _ => panic!("unexpected command"),
    }
}
