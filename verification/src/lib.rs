//! pxml: a parallel, StAX-style (pull) XML reader for documents that hold many
//! uniform, order-independent records under one container.

pub mod arrivals;
pub mod bytes;
pub mod chunking;
pub mod config;
pub mod contents;
pub mod cursor;
pub mod declarations;
pub mod doctypes;
pub mod document;
pub mod equivalence;
pub mod error;
pub mod event;
pub mod faults;
pub mod flaws;
pub mod framer;
pub mod grammar;
pub mod growth;
pub mod headings;
pub mod insulation;
pub mod interleaving;
pub mod namespaces;
pub mod nesting;
pub mod parse;
pub mod placement;
pub mod prelude;
pub mod prolog;
pub mod raw;
pub mod readback;
pub mod reference;
pub mod refusals;
pub mod scan;
pub mod shifting;
pub mod spans;
pub mod stream;
pub mod tags;
pub mod text;
pub mod texts;
pub mod tree;
pub mod unknowns;
pub mod values;
pub mod wholes;
pub mod writing;

pub use config::{Config, PathStep, RecordPath};
pub use document::{is_zstd, ParallelXml, Record};
pub use error::{RecordFault, XmlError};
pub use event::{AttrIter, Attribute, Attrs, Event, QName};
pub use framer::StreamFramer;
pub use parse::{RecordReader, SeqReader};
pub use prelude::{Encoding, NameMap, NamespaceContext, Prelude};
pub use scan::{scan_with, ChunkIndex};
pub use stream::{Action, Batch, Producer, StreamReader};
