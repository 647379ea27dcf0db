//! Torrent metadata read out of a decoded metainfo document.

use vstd::prelude::*;
use crate::bencode::{Node, SpecNode, SpecValue, parse, spec_parse, view_nodes};
use crate::fields::{
    field, text_of, integer_of, list_of, text_field, integer_field, bytes_field, list_field,
    get_text, get_integer, get_bytes, get_list, lemma_view_nodes_index,
};

verus! {

/// Size of one piece hash.
pub const PIECE_HASH_LEN: usize = 20;

/// One file of the torrent: its path components and its length in bytes.
pub struct File {
    pub path: Vec<String>,
    pub length: usize,
}

pub struct Info {
    /// Lowercase hex of the SHA-1 digest of the `info` value's encoding.
    pub hash: String,
    pub name: Option<String>,
    pub piece_length: usize,
    /// The piece hashes, `PIECE_HASH_LEN` bytes each.
    pub pieces: Vec<Vec<u8>>,
    pub files: Vec<File>,
}

pub struct TorrentInfo {
    pub announce: String,
    pub info: Info,
}

/// Why a metainfo document could not be read.
#[derive(Debug)]
pub enum ParseError {
    /// The document is not valid bencode.
    InvalidBencode,
    /// A required field is absent or has the wrong type.
    MissingField(&'static str),
    /// The piece hashes do not split into whole hashes.
    InvalidPieces,
}

pub ghost struct SpecFile {
    pub path: Seq<Seq<char>>,
    pub length: int,
}

pub ghost struct SpecTorrent {
    pub announce: Seq<char>,
    pub hash: Seq<char>,
    pub name: Option<Seq<char>>,
    pub piece_length: int,
    pub pieces: Seq<Seq<u8>>,
    pub files: Seq<SpecFile>,
}

/// Digest of a byte sequence under SHA-1.
pub uninterp spec fn sha1_of(data: Seq<u8>) -> Seq<u8>;

/// Lowercase hexadecimal digit of a value below 16.
pub open spec fn hex_digit(v: int) -> char {
    seq!['0', '1', '2', '3', '4', '5', '6', '7', '8', '9', 'a', 'b', 'c', 'd', 'e', 'f'][v]
}

/// Two lowercase hexadecimal digits for each byte, high half first.
pub open spec fn hex_of(b: Seq<u8>) -> Seq<char>
    decreases b.len(),
{
    if b.len() == 0 {
        Seq::empty()
    } else {
        hex_of(b.drop_last()) + seq![hex_digit(b.last() as int / 16), hex_digit(b.last() as int % 16)]
    }
}

/// Relies on `sha1::Sha1::digest`: the SHA-1 digest of `data`, 20 bytes.
#[verifier::external_body]
fn sha1_digest(data: &[u8]) -> (r: Vec<u8>)
    ensures
        r@ == sha1_of(data@),
        r@.len() == 20,
{
    <sha1::Sha1 as sha1::Digest>::digest(data).to_vec()
}

/// Relies on `hex::encode`: each byte as two lowercase hex digits, high
/// half first.
#[verifier::external_body]
fn to_hex(b: &[u8]) -> (r: String)
    ensures
        r@ == hex_of(b@),
{
    hex::encode(b)
}

/// The consecutive `PIECE_HASH_LEN`-byte pieces of `b`.
pub open spec fn pieces_of(b: Seq<u8>) -> Seq<Seq<u8>> {
    Seq::new(
        b.len() / (PIECE_HASH_LEN as nat),
        |i: int| b.subrange(i * PIECE_HASH_LEN, i * PIECE_HASH_LEN + PIECE_HASH_LEN),
    )
}

/// The path components of a file entry, if all are text.
pub open spec fn spec_path(items: Seq<SpecNode>) -> Option<Seq<Seq<char>>>
    decreases items.len(),
{
    if items.len() == 0 {
        Some(Seq::empty())
    } else {
        match (spec_path(items.drop_last()), text_of(items.last())) {
            (Some(p), Some(t)) => Some(p.push(t)),
            _ => None,
        }
    }
}

/// One entry of a multi-file torrent's `files` list.
pub open spec fn spec_file(n: SpecNode) -> Result<SpecFile, ParseError> {
    if !(n.value is Dictionary) {
        Err(ParseError::MissingField("file"))
    } else {
        match list_field(n, "path"@) {
            None => Err(ParseError::MissingField("path")),
            Some(items) => match spec_path(items) {
                None => Err(ParseError::MissingField("path item")),
                Some(path) => match integer_field(n, "length"@) {
                    None => Err(ParseError::MissingField("length")),
                    Some(l) => Ok(SpecFile { path, length: (l as usize) as int }),
                },
            },
        }
    }
}

/// The entries of a `files` list; the first entry in error decides the error.
pub open spec fn spec_file_list(items: Seq<SpecNode>) -> Result<Seq<SpecFile>, ParseError>
    decreases items.len(),
{
    if items.len() == 0 {
        Ok(Seq::empty())
    } else {
        match spec_file_list(items.drop_last()) {
            Err(e) => Err(e),
            Ok(fs) => match spec_file(items.last()) {
                Err(e) => Err(e),
                Ok(f) => Ok(fs.push(f)),
            },
        }
    }
}

/// The files of an `info` dictionary: one file when it has an integer
/// `length`, named after `name`, else the entries of its `files` list.
pub open spec fn spec_files(info: SpecNode, name: Option<Seq<char>>) -> Result<
    Seq<SpecFile>,
    ParseError,
> {
    match integer_field(info, "length"@) {
        Some(l) => Ok(
            seq![SpecFile {
                path: seq![match name {
                    Some(n) => n,
                    None => "Default name"@,
                }],
                length: (l as usize) as int,
            }],
        ),
        None => match list_field(info, "files"@) {
            Some(items) => spec_file_list(items),
            None => Err(ParseError::MissingField("length/files")),
        },
    }
}

/// The metadata a metainfo document holds.
pub open spec fn spec_torrent(content: Seq<u8>) -> Result<SpecTorrent, ParseError> {
    match spec_parse(content) {
        Err(_) => Err(ParseError::InvalidBencode),
        Ok(root) => if !(root.value is Dictionary) {
            Err(ParseError::MissingField("root"))
        } else {
            match text_field(root, "announce"@) {
                None => Err(ParseError::MissingField("announce")),
                Some(announce) => match field(root, "info"@) {
                    None => Err(ParseError::MissingField("info")),
                    Some(info) => if !(info.value is Dictionary) {
                        Err(ParseError::MissingField("info"))
                    } else {
                        let name = text_field(info, "name"@);
                        match integer_field(info, "piece length"@) {
                            None => Err(ParseError::MissingField("piece length")),
                            Some(pl) => {
                                match bytes_field(info, "pieces"@) {
                                    None => Err(ParseError::MissingField("pieces")),
                                    Some(pb) => if pb.len() % (PIECE_HASH_LEN as nat) != 0 {
                                        Err(ParseError::InvalidPieces)
                                    } else {
                                        match spec_files(info, name) {
                                            Err(e) => Err(e),
                                            Ok(files) => Ok(
                                                SpecTorrent {
                                                    announce,
                                                    hash: hex_of(
                                                        sha1_of(content.subrange(info.start, info.end)),
                                                    ),
                                                    name,
                                                    piece_length: (pl as usize) as int,
                                                    pieces: pieces_of(pb),
                                                    files,
                                                },
                                            ),
                                        }
                                    },
                                }
                            },
                        }
                    },
                },
            }
        },
    }
}

pub open spec fn view_strings(v: Seq<String>) -> Seq<Seq<char>> {
    v.map_values(|s: String| s@)
}

impl View for File {
    type V = SpecFile;

    open spec fn view(&self) -> SpecFile {
        SpecFile { path: view_strings(self.path@), length: self.length as int }
    }
}

impl View for TorrentInfo {
    type V = SpecTorrent;

    open spec fn view(&self) -> SpecTorrent {
        SpecTorrent {
            announce: self.announce@,
            hash: self.info.hash@,
            name: match self.info.name {
                Some(n) => Some(n@),
                None => None,
            },
            piece_length: self.info.piece_length as int,
            pieces: self.info.pieces@.map_values(|p: Vec<u8>| p@),
            files: self.info.files@.map_values(|f: File| f@),
        }
    }
}

pub open spec fn view_torrent_result(r: Result<TorrentInfo, ParseError>) -> Result<
    SpecTorrent,
    ParseError,
> {
    match r {
        Ok(t) => Ok(t@),
        Err(e) => Err(e),
    }
}

/// Splits `b` into consecutive `PIECE_HASH_LEN`-byte pieces.
fn split_pieces(b: &Vec<u8>) -> (r: Vec<Vec<u8>>)
    requires
        b@.len() % (PIECE_HASH_LEN as nat) == 0,
    ensures
        r@.map_values(|p: Vec<u8>| p@) == pieces_of(b@),
{
    let mut r: Vec<Vec<u8>> = Vec::new();
    let mut start: usize = 0;
    while start < b.len()
        invariant
            b@.len() % (PIECE_HASH_LEN as nat) == 0,
            start % PIECE_HASH_LEN == 0,
            start <= b@.len(),
            r@.len() == start / PIECE_HASH_LEN,
            forall|i: int|
                0 <= i < r@.len() ==> #[trigger] r@[i]@ == b@.subrange(
                    i * PIECE_HASH_LEN,
                    i * PIECE_HASH_LEN + PIECE_HASH_LEN,
                ),
        decreases b@.len() - start,
    {
        assert(start + PIECE_HASH_LEN <= b@.len()) by (nonlinear_arith)
            requires
                b@.len() % 20 == 0,
                start % 20 == 0,
                start < b@.len(),
        ;
        let mut piece: Vec<u8> = Vec::new();
        let stop = start + PIECE_HASH_LEN;
        let mut i: usize = start;
        while i < stop
            invariant
                stop == start + PIECE_HASH_LEN <= b@.len(),
                start <= i <= stop,
                piece@ == b@.subrange(start as int, i as int),
            decreases stop - i,
        {
            piece.push(b[i]);
            i = i + 1;
        }
        assert((r@.len() as int) * PIECE_HASH_LEN == start) by (nonlinear_arith)
            requires
                r@.len() == start / 20,
                start % 20 == 0,
        ;
        r.push(piece);
        start = start + PIECE_HASH_LEN;
    }
    assert(r@.map_values(|p: Vec<u8>| p@) =~= pieces_of(b@));
    r
}

/// The path components of a file entry.
fn read_path(items: &Vec<Node>) -> (r: Option<Vec<String>>)
    ensures
        r matches Some(p) ==> spec_path(view_nodes(items@)) == Some(view_strings(p@)),
        r is None ==> spec_path(view_nodes(items@)) is None,
{
    proof {
        lemma_view_nodes_index(items@);
    }
    let ghost all = view_nodes(items@);
    let mut path: Vec<String> = Vec::new();
    let mut i: usize = 0;
    assert(all.subrange(0, 0) =~= Seq::<SpecNode>::empty());
    assert(view_strings(path@) =~= Seq::<Seq<char>>::empty());
    while i < items.len()
        invariant
            i <= items@.len(),
            all == view_nodes(items@),
            all.len() == items@.len(),
            forall|j: int| 0 <= j < items@.len() ==> #[trigger] all[j] == items@[j]@,
            spec_path(all.subrange(0, i as int)) == Some(view_strings(path@)),
        decreases items@.len() - i,
    {
        assert(all.subrange(0, i + 1).drop_last() =~= all.subrange(0, i as int));
        match items[i].as_str() {
            Some(t) => {
                let part = t.to_owned();
                path.push(part);
                assert(view_strings(path@) =~= view_strings(path@.drop_last()).push(part@));
            },
            None => {
                proof {
                    lemma_path_none(all, i as int);
                }
                return None;
            },
        }
        i = i + 1;
    }
    assert(all.subrange(0, i as int) =~= all);
    Some(path)
}

/// One entry of a `files` list.
fn read_file(n: &Node) -> (r: Result<File, ParseError>)
    ensures
        r matches Ok(f) ==> spec_file(n@) == Ok::<SpecFile, ParseError>(f@),
        r matches Err(e) ==> spec_file(n@) == Err::<SpecFile, ParseError>(e),
{
    if n.as_dictionary().is_none() {
        return Err(ParseError::MissingField("file"));
    }
    let items = match get_list(n, "path") {
        Some(items) => items,
        None => return Err(ParseError::MissingField("path")),
    };
    let path = match read_path(items) {
        Some(p) => p,
        None => return Err(ParseError::MissingField("path item")),
    };
    let length = match get_integer(n, "length") {
        Some(l) => l,
        None => return Err(ParseError::MissingField("length")),
    };
    Ok(File { path, length: length as usize })
}

/// The entries of a `files` list.
fn read_file_list(items: &Vec<Node>) -> (r: Result<Vec<File>, ParseError>)
    ensures
        r matches Ok(fs) ==> spec_file_list(view_nodes(items@)) == Ok::<
            Seq<SpecFile>,
            ParseError,
        >(fs@.map_values(|f: File| f@)),
        r matches Err(e) ==> spec_file_list(view_nodes(items@)) == Err::<
            Seq<SpecFile>,
            ParseError,
        >(e),
{
    proof {
        lemma_view_nodes_index(items@);
    }
    let ghost all = view_nodes(items@);
    let mut files: Vec<File> = Vec::new();
    let mut i: usize = 0;
    assert(all.subrange(0, 0) =~= Seq::<SpecNode>::empty());
    assert(files@.map_values(|f: File| f@) =~= Seq::<SpecFile>::empty());
    while i < items.len()
        invariant
            i <= items@.len(),
            all == view_nodes(items@),
            all.len() == items@.len(),
            forall|j: int| 0 <= j < items@.len() ==> #[trigger] all[j] == items@[j]@,
            spec_file_list(all.subrange(0, i as int)) == Ok::<Seq<SpecFile>, ParseError>(
                files@.map_values(|f: File| f@),
            ),
        decreases items@.len() - i,
    {
        assert(all.subrange(0, i + 1).drop_last() =~= all.subrange(0, i as int));
        match read_file(&items[i]) {
            Ok(f) => {
                let ghost before = files@;
                files.push(f);
                assert(files@.map_values(|f: File| f@) =~= before.map_values(|f: File| f@).push(
                    f@,
                ));
            },
            Err(e) => {
                proof {
                    lemma_file_list_error(all, i as int, e);
                }
                return Err(e);
            },
        }
        i = i + 1;
    }
    assert(all.subrange(0, i as int) =~= all);
    Ok(files)
}

/// An error at one entry is the error of the whole list, when the entries
/// before it are fine.
proof fn lemma_file_list_error(all: Seq<SpecNode>, i: int, e: ParseError)
    requires
        0 <= i < all.len(),
        spec_file_list(all.subrange(0, i)) is Ok,
        spec_file(all[i]) == Err::<SpecFile, ParseError>(e),
    ensures
        spec_file_list(all) == Err::<Seq<SpecFile>, ParseError>(e),
    decreases all.len(),
{
    if i < all.len() - 1 {
        assert(all.drop_last().subrange(0, i) =~= all.subrange(0, i));
        lemma_file_list_error(all.drop_last(), i, e);
    } else {
        assert(all.drop_last() =~= all.subrange(0, i));
    }
}

/// One component that is not text makes the whole path invalid.
proof fn lemma_path_none(all: Seq<SpecNode>, i: int)
    requires
        0 <= i < all.len(),
        spec_path(all.subrange(0, i)) is Some,
        text_of(all[i]) is None,
    ensures
        spec_path(all) is None,
    decreases all.len(),
{
    if i < all.len() - 1 {
        assert(all.drop_last().subrange(0, i) =~= all.subrange(0, i));
        lemma_path_none(all.drop_last(), i);
    } else {
        assert(all.drop_last() =~= all.subrange(0, i));
    }
}

/// The files of an `info` dictionary.
fn read_files(info: &Node, name: &Option<String>) -> (r: Result<Vec<File>, ParseError>)
    ensures
        r matches Ok(fs) ==> spec_files(
            info@,
            match name {
                Some(n) => Some(n@),
                None => None,
            },
        ) == Ok::<Seq<SpecFile>, ParseError>(fs@.map_values(|f: File| f@)),
        r matches Err(e) ==> spec_files(
            info@,
            match name {
                Some(n) => Some(n@),
                None => None,
            },
        ) == Err::<Seq<SpecFile>, ParseError>(e),
{
    if let Some(length) = get_integer(info, "length") {
        let length = length as usize;
        let file_name = match name {
            Some(n) => n.clone(),
            None => "Default name".to_owned(),
        };
        let mut path: Vec<String> = Vec::new();
        path.push(file_name);
        let mut files: Vec<File> = Vec::new();
        files.push(File { path, length });
        assert(view_strings(path@) =~= seq![file_name@]);
        assert(files@.map_values(|f: File| f@) =~= seq![files@[0]@]);
        Ok(files)
    } else {
        match get_list(info, "files") {
            Some(items) => read_file_list(items),
            None => Err(ParseError::MissingField("length/files")),
        }
    }
}

/// Reads torrent metadata from the bytes of a metainfo document: the tracker
/// URL, the `info` dictionary's fields, and the info hash, the SHA-1 digest of
/// the `info` value's exact encoding in hex.
pub fn from_bytes(content: &[u8]) -> (r: Result<TorrentInfo, ParseError>)
    ensures
        view_torrent_result(r) == spec_torrent(content@),
{
    let root = match parse(content) {
        Ok(root) => root,
        Err(_) => return Err(ParseError::InvalidBencode),
    };
    if root.as_dictionary().is_none() {
        return Err(ParseError::MissingField("root"));
    }
    let announce = match get_text(&root, "announce") {
        Some(a) => a,
        None => return Err(ParseError::MissingField("announce")),
    };
    let info = match root.get("info") {
        Some(info) => info,
        None => return Err(ParseError::MissingField("info")),
    };
    proof {
        crate::framing::lemma_spans_nested(content@);
        let m = root@.value->Dictionary_0;
        assert(root@ == spec_parse(content@)->Ok_0);
        assert(crate::framing::spans_nested(root@));
        assert(crate::framing::map_within(m, root@.start, root@.end - 1));
        assert(m.contains_key("info"@));
        assert(m["info"@] == info@);
        assert(0 <= info@.start < info@.end <= content@.len());
    }
    let hash = to_hex(sha1_digest(&content[info.start..info.end]).as_slice());
    if info.as_dictionary().is_none() {
        return Err(ParseError::MissingField("info"));
    }
    let name = get_text(info, "name");
    let piece_length = match get_integer(info, "piece length") {
        Some(pl) => pl,
        None => return Err(ParseError::MissingField("piece length")),
    };
    let piece_length = piece_length as usize;
    let pieces_bytes = match get_bytes(info, "pieces") {
        Some(pb) => pb,
        None => return Err(ParseError::MissingField("pieces")),
    };
    if pieces_bytes.len() % PIECE_HASH_LEN != 0 {
        return Err(ParseError::InvalidPieces);
    }
    let pieces = split_pieces(pieces_bytes);
    let files = read_files(info, &name)?;
    Ok(TorrentInfo { announce, info: Info { hash, name, piece_length, pieces, files } })
}

} // verus!
