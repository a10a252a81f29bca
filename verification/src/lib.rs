//! Programme schedules of television channels, between the documents that
//! name them (XMLTV) and the tables that carry them in a broadcast (the
//! event information tables of DVB).
//!
//! An [`Epg`] holds the channels and their events. It takes documents in,
//! one after the other, each adding what is later than what a channel has,
//! and writes the schedule as a document. An [`EpgChannel`] takes the rows of
//! a table in, and an [`EitItem`] is made from an [`EpgEvent`] for a table
//! that goes out.

pub mod compressed;
pub mod date;
pub mod eit;
pub mod epg;
pub mod epg_channel;
pub mod epg_event;
pub mod error;
pub mod lang;
pub mod merge_laws;
pub mod number;
pub mod rating;
pub mod read_xml;
pub mod reader_laws;
pub mod round_trip;
pub mod text_map;
pub mod write_xml;
pub mod xml_event;

pub use crate::compressed::Compressed;
pub use crate::eit::{Descriptor, DvbText, Eit, EitItem};
pub use crate::epg::{is_gzip, parse_source, ChannelMap, Epg, EpgError, Source};
pub use crate::epg_channel::EpgChannel;
pub use crate::epg_event::EpgEvent;
pub use crate::error::StreamError;
pub use crate::lang::LangTable;
pub use crate::rating::{Rating, RatingMap};
pub use crate::read_xml::{parse_xml_tv, read_xml_tv, XmlReaderError};
pub use crate::text_map::{TextEntry, TextMap};
pub use crate::write_xml::{assemble_xml_tv, write_xml_tv, XmlWriteEvent, XmlWriterError};
pub use crate::xml_event::{Attribute, XmlEvent};
