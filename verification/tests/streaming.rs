use std::io;
use std::sync::Mutex;

use pxml::{Action, Event, Record, StreamReader, XmlError};

fn build_doc(n: usize) -> String {
    let mut s = String::from("<records>");
    for i in 0..n {
        s.push_str("<r>");
        s.push_str(&i.to_string());
        s.push_str("</r>");
    }
    s.push_str("</records>");
    s
}

fn record_value(rec: &Record) -> usize {
    let mut reader = rec.events();
    let mut text = String::new();
    while let Some(ev) = reader.next_event().unwrap() {
        if let Event::Text(t) = ev {
            text.push_str(&t);
        }
    }
    text.parse().unwrap()
}

/// Drives a stream to its end on this thread, applying `f` to every record.
fn for_each_record<R: io::Read>(
    stream: StreamReader<R>,
    f: impl Fn(&Record),
) -> Result<(), XmlError> {
    let (mut source, mut producer) = stream.into_parts();
    let mut chunk = vec![0u8; 64 * 1024];
    loop {
        match producer.next_action()? {
            Action::Deliver(batch) => batch.for_each(&f),
            Action::Read => {
                let n = source.read(&mut chunk).map_err(XmlError::Io)?;
                if n == 0 {
                    return producer.end_of_input();
                }
                producer.feed(&chunk[..n]);
            }
        }
    }
}

/// Drain a stream into a sorted vec of per-record values (unordered output).
fn collect_sorted<R: io::Read>(reader: StreamReader<R>) -> Vec<usize> {
    let out = Mutex::new(Vec::new());
    for_each_record(reader, |rec| out.lock().unwrap().push(record_value(rec))).unwrap();
    let mut values = out.into_inner().unwrap();
    values.sort_unstable();
    values
}

/// A reader that yields at most `step` bytes per `read`, to stress the
/// producer's chunk boundaries through the real pipeline.
struct Chunky<'a> {
    data: &'a [u8],
    pos: usize,
    step: usize,
}

impl io::Read for Chunky<'_> {
    fn read(&mut self, buf: &mut [u8]) -> io::Result<usize> {
        let remaining = &self.data[self.pos..];
        let k = remaining.len().min(buf.len()).min(self.step);
        buf[..k].copy_from_slice(&remaining[..k]);
        self.pos += k;
        Ok(k)
    }
}

#[test]
fn streaming_matches_materialized_plain() {
    let n = 500;
    let xml = build_doc(n);
    let got = collect_sorted(StreamReader::from_reader(xml.as_bytes()));
    assert_eq!(got, (0..n).collect::<Vec<_>>());
}

#[test]
fn streaming_survives_tiny_chunks() {
    let n = 50;
    let xml = build_doc(n);
    let reader = Chunky {
        data: xml.as_bytes(),
        pos: 0,
        step: 3,
    };
    let got = collect_sorted(StreamReader::from_reader(reader));
    assert_eq!(got, (0..n).collect::<Vec<_>>());
}

#[test]
fn streaming_reports_unclosed_root() {
    let res = for_each_record(StreamReader::from_reader(&b"<r><a></a>"[..]), |_| {});
    assert!(res.is_err());
}

/// `<root><manifest>meta</manifest><objects><object>0</object>…</objects></root>`.
fn build_container_doc(n: usize) -> String {
    let mut s = String::from("<root><manifest>meta</manifest><objects>");
    for i in 0..n {
        s.push_str("<object>");
        s.push_str(&i.to_string());
        s.push_str("</object>");
    }
    s.push_str("</objects></root>");
    s
}

#[test]
fn streaming_record_path_matches_materialized() {
    let n = 500;
    let xml = build_container_doc(n);
    let got =
        collect_sorted(StreamReader::from_reader(xml.as_bytes()).record_path(["objects"]));
    assert_eq!(got, (0..n).collect::<Vec<_>>());
}

#[test]
fn streaming_record_path_survives_tiny_chunks() {
    let n = 40;
    let xml = build_container_doc(n);
    let reader = Chunky {
        data: xml.as_bytes(),
        pos: 0,
        step: 3,
    };
    let got = collect_sorted(StreamReader::from_reader(reader).record_path(["objects"]));
    assert_eq!(got, (0..n).collect::<Vec<_>>());
}

#[test]
fn streaming_zstd_matches_materialized() {
    let n = 800;
    let xml = build_doc(n);
    let compressed = zstd::encode_all(xml.as_bytes(), 3).unwrap();
    let reader = StreamReader::from_reader(zstd::Decoder::new(&compressed[..]).unwrap());
    assert_eq!(collect_sorted(reader), (0..n).collect::<Vec<_>>());
}
