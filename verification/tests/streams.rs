//! The bookkeeping behind stream adapters.

use zstandard::io::{Reader, ReaderAction, Writer};
use zstandard::Error;

#[test]
fn a_writer_forwards_every_byte_once() {
    let mut writer = Writer::new(7u8);
    assert_eq!(*writer.get_ref(), 7);
    assert!(writer.drain().is_none());
    assert_eq!(writer.encoded(b"abc", Ok(())), Ok(()));
    assert_eq!(writer.pending_output_len(), 3);
    assert_eq!(writer.drain(), Some(b"abc".to_vec()));
    // Taken whether or not the sink accepted them.
    assert!(writer.drain().is_none());
    assert_eq!(
        writer.encoded(b"d", Err(Error::Generic)),
        Err(Error::Generic)
    );
    let (inner, due) = writer.finish(b"ef", Ok(())).unwrap();
    assert_eq!(inner, 7);
    assert_eq!(due, Some(b"def".to_vec()));
}

#[test]
fn a_refused_encoder_makes_no_writer() {
    let refused = Writer::with_options((), Err(Error::InvalidParameter("level")));
    assert_eq!(refused.err(), Some(Error::InvalidParameter("level")));
    let mut writer = Writer::with_prepared_dict((), Ok(b"head".to_vec())).ok().unwrap();
    assert_eq!(writer.drain(), Some(b"head".to_vec()));
    assert_eq!(
        writer.finish(b"", Err(Error::Generic)).err(),
        Some(Error::Generic)
    );
    let (_, due) = Writer::new(()).finish(b"", Ok(())).unwrap();
    assert!(due.is_none());
}

fn returned(action: ReaderAction) -> Vec<u8> {
    match action {
        ReaderAction::Return(bytes) => bytes,
        _ => panic!("expected bytes"),
    }
}

#[test]
fn a_reader_pulls_decodes_and_ends() {
    let mut reader = Reader::new("source");
    assert_eq!(*reader.get_ref(), "source");
    assert!(returned(reader.read(0)).is_empty());
    assert!(matches!(reader.read(4), ReaderAction::Refill));
    assert!(reader.received(10));
    assert_eq!(reader.decoded(b"hello", Vec::new(), Ok(())), Ok(()));
    assert_eq!(reader.pending_output_len(), 5);
    assert_eq!(returned(reader.read(4)), b"hell");
    assert_eq!(returned(reader.read(4)), b"o");
    assert!(matches!(reader.read(4), ReaderAction::Refill));
    assert!(!reader.received(0));
    assert!(matches!(reader.read(4), ReaderAction::Finish));
    assert_eq!(
        reader.finished(b"", b"tail".to_vec(), Err(Error::UnexpectedEof)),
        Err(Error::UnexpectedEof)
    );
    // A truncated frame stays an error.
    assert!(matches!(reader.read(4), ReaderAction::Finish));
    assert_eq!(reader.finished(b"!", Vec::new(), Ok(())), Ok(()));
    assert_eq!(returned(reader.read(4)), b"!");
    assert!(returned(reader.read(4)).is_empty());
    assert!(returned(reader.read(4)).is_empty());
    assert_eq!(reader.into_inner(), "source");
}

#[test]
fn what_was_not_consumed_is_given_back() {
    let mut reader = Reader::with_options(3);
    assert!(reader.received(9));
    assert_eq!(
        reader.decoded(b"ab", b"rest".to_vec(), Err(Error::TrailingInput { offset: 5 })),
        Err(Error::TrailingInput { offset: 5 })
    );
    assert_eq!(returned(reader.read(9)), b"ab");
    assert_eq!(reader.into_inner_with_remainder(), (3, b"rest".to_vec()));
    // What the decoder leaves when it ends counts too.
    let mut ended = Reader::with_options(5);
    assert!(!ended.received(0));
    assert_eq!(
        ended.finished(b"", b"tail".to_vec(), Err(Error::UnexpectedEof)),
        Err(Error::UnexpectedEof)
    );
    assert_eq!(ended.into_inner_with_remainder(), (5, b"tail".to_vec()));
    let fresh = Reader::with_prepared_dict(4);
    assert_eq!(fresh.into_inner_with_remainder(), (4, Vec::new()));
}
