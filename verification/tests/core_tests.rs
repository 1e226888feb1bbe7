//! Tests for the packet header, configuration defaults, and error
//! rendering.

use onebox_core::config::{ClientConfig, ServerConfig};
use onebox_core::error::OneboxError;
use onebox_core::packet::{ClientId, PacketHeader, PacketType};

#[test]
fn packet_type_is_four_bytes() {
    // The packet type occupies exactly four bytes of the wire layout:
    // two headers differing only in type encode to 40 bytes each and
    // differ only within bytes 8..12.
    let a = PacketHeader::new(7, PacketType::Data, ClientId(9)).serialize();
    let mut b_header = PacketHeader::new(7, PacketType::Control, ClientId(9));
    let a_header = PacketHeader::deserialize(&a).unwrap();
    b_header.timestamp = a_header.timestamp;
    let b = b_header.serialize();
    assert_eq!(a.len(), 40);
    assert_eq!(b.len(), 40);
    for i in 0..40 {
        if !(8..12).contains(&i) {
            assert_eq!(a[i], b[i]);
        }
    }
    assert_ne!(a[8..12], b[8..12]);
}

#[test]
fn packet_header_default_values() {
    let header = PacketHeader::default();
    assert_eq!(header.sequence_number, 0);
    assert_eq!(header.packet_type, PacketType::Data);
    assert!(header.timestamp > 0);
    assert_eq!(header.client_id.0, 0);
    assert_eq!(header.reserved, 0);
}

#[test]
fn packet_header_new_sets_fields() {
    let client_id = ClientId(42);
    let header = PacketHeader::new(123, PacketType::Probe, client_id);
    assert_eq!(header.sequence_number, 123);
    assert_eq!(header.packet_type, PacketType::Probe);
    assert_eq!(header.client_id.0, 42);
    assert!(header.timestamp > 0);
}

#[test]
fn packet_header_size_matches_layout() {
    assert_eq!(PacketHeader::size(), 8 + 8 + 16 + 4 + 4);
}

#[test]
fn header_codec_round_trip() {
    let mut header = PacketHeader::new(0xDEAD_BEEF_0102_0304, PacketType::AuthRequest, ClientId(0xABCD));
    header.timestamp = 1234567890;
    header.reserved = 1;
    let bytes = header.serialize();
    assert_eq!(bytes.len(), 40);
    let de = PacketHeader::deserialize(&bytes).unwrap();
    assert_eq!(de.sequence_number, 0xDEAD_BEEF_0102_0304);
    assert_eq!(de.packet_type, PacketType::AuthRequest);
    assert_eq!(de.timestamp, 1234567890);
    assert_eq!(de.client_id.0, 0xABCD);
    assert_eq!(de.reserved, 1);
}

#[test]
fn header_codec_layout_is_little_endian() {
    let mut header = PacketHeader::new(1, PacketType::Data, ClientId(2));
    header.timestamp = 3;
    let bytes = header.serialize();
    let mut expected = [0u8; 40];
    expected[0] = 1; // sequence number, little-endian
    expected[8] = 1; // Data type code
    expected[12] = 3; // timestamp
    expected[20] = 2; // client id
    assert_eq!(&bytes[..], &expected[..]);
}

#[test]
fn header_rejects_runt_and_bad_code() {
    assert!(PacketHeader::deserialize(&[0u8; 39]).is_err());
    let mut bytes = PacketHeader::new(5, PacketType::Data, ClientId(1)).serialize();
    bytes[8] = 0; // no packet type owns code zero
    assert!(PacketHeader::deserialize(&bytes).is_err());
    bytes[8] = 6; // one past the last code
    assert!(PacketHeader::deserialize(&bytes).is_err());
    bytes[8] = 5; // the Control code
    assert_eq!(
        PacketHeader::deserialize(&bytes).unwrap().packet_type,
        PacketType::Control
    );
}

#[test]
fn test_default_client_config() {
    let config = ClientConfig::default();
    assert_eq!(config.server_address, "127.0.0.1");
    assert_eq!(config.server_port, 51820);
}

#[test]
fn test_default_server_config() {
    let config = ServerConfig::default();
    assert_eq!(config.listen_address, "0.0.0.0");
    assert_eq!(config.listen_port, 51820);
}

#[test]
fn test_onebox_error_display() {
    assert_eq!(
        OneboxError::Config("test".to_string()).message(),
        "Configuration error: test"
    );
    assert_eq!(
        OneboxError::Network("test".to_string()).message(),
        "Network error: test"
    );
    assert_eq!(
        OneboxError::Tun("test".to_string()).message(),
        "TUN interface error: test"
    );
    assert_eq!(
        OneboxError::Auth("test".to_string()).message(),
        "Authentication error: test"
    );
    assert_eq!(
        OneboxError::Crypto("test".to_string()).message(),
        "Encryption error: test"
    );
    assert_eq!(
        OneboxError::Serialization("test".to_string()).message(),
        "Serialization error: test"
    );
    assert_eq!(
        OneboxError::System("test".to_string()).message(),
        "System error: test"
    );
}

#[test]
fn test_io_error_from() {
    let io_error = std::io::Error::new(std::io::ErrorKind::NotFound, "file not found");
    let onebox_error = OneboxError::Io(io_error.to_string());
    assert_eq!(onebox_error.message(), "IO error: file not found");
}

#[test]
fn min_datagram_size_is_header_plus_tag() {
    assert_eq!(onebox_core::min_datagram_size(), 56);
}
