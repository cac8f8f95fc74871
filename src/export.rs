//! The textual export formats that a decoded torrent can be written in.
use vstd::prelude::*;
use crate::fields::bytes_eq;

verus! {

/// An output format.
#[derive(Debug, Clone, Copy, PartialEq, Eq, Structural)]
pub enum FileType {
    Json,
    Xml,
    Yaml,
    Torrent,
}

/// What `str::to_lowercase` makes of a text.
pub uninterp spec fn lower_of(s: Seq<char>) -> Seq<char>;

/// Relies on `str::to_lowercase`: the result depends on the characters alone.
#[verifier::external_body]
fn lowercase(s: &str) -> (r: String)
    ensures
        r@ == lower_of(s@),
{
    s.to_lowercase()
}

/// The format that a lower-case name (as UTF-8 bytes) denotes.
pub open spec fn file_type_of(b: Seq<u8>) -> Option<FileType> {
    if b == seq![106u8, 115, 111, 110] {
        Some(FileType::Json)
    } else if b == seq![120u8, 109, 108] {
        Some(FileType::Xml)
    } else if b == seq![121u8, 97, 109, 108] || b == seq![121u8, 109, 108] {
        Some(FileType::Yaml)
    } else if b == seq![116u8, 111, 114, 114, 101, 110, 116] {
        Some(FileType::Torrent)
    } else {
        None
    }
}

impl FileType {
    /// The format named by `s`, compared without regard to case:
    /// `json`, `xml`, `yaml` or `yml`, `torrent`.
    pub fn from_str(s: &str) -> (r: Option<FileType>)
        ensures
            r == file_type_of(vstd::utf8::encode_utf8(lower_of(s@))),
    {
        let l = lowercase(s);
        FileType::from_lowercase(l.as_str())
    }

    /// The format named by the already lower-case `t`.
    pub fn from_lowercase(t: &str) -> (r: Option<FileType>)
        ensures
            r == file_type_of(vstd::utf8::encode_utf8(t@)),
    {
        let b = t.as_bytes();
        let json = vec![106u8, 115, 111, 110];
        let xml = vec![120u8, 109, 108];
        let yaml = vec![121u8, 97, 109, 108];
        let yml = vec![121u8, 109, 108];
        let torrent = vec![116u8, 111, 114, 114, 101, 110, 116];
        proof {
            assert(json@ =~= seq![106u8, 115, 111, 110]);
            assert(xml@ =~= seq![120u8, 109, 108]);
            assert(yaml@ =~= seq![121u8, 97, 109, 108]);
            assert(yml@ =~= seq![121u8, 109, 108]);
            assert(torrent@ =~= seq![116u8, 111, 114, 114, 101, 110, 116]);
        }
        if bytes_eq(b, json.as_slice()) {
            Some(FileType::Json)
        } else if bytes_eq(b, xml.as_slice()) {
            Some(FileType::Xml)
        } else if bytes_eq(b, yaml.as_slice()) || bytes_eq(b, yml.as_slice()) {
            Some(FileType::Yaml)
        } else if bytes_eq(b, torrent.as_slice()) {
            Some(FileType::Torrent)
        } else {
            None
        }
    }
}

} // verus!
