//! The metainfo of a torrent: where its tracker is, how its content is cut into
//! pieces, what each piece hashes to, and which files the content makes up.

use crate::bencode::{
    dict_insert, encode, encoding, values_view, Bencode, BencodeValue, Dictionary,
};
use crate::digest::{sha1, sha1_digest};
use crate::hashes::{join_hashes, Hashes};
use vstd::prelude::*;
use vstd::slice::slice_to_vec;
use vstd::string::{StringExecFns, StringSliceAdditionalSpecFns};
use vstd::utf8::encode_utf8;

verus! {

/// A metainfo file, also known as a .torrent file.
#[derive(Debug, Clone, PartialEq, Eq)]
pub struct Torrent {
    /// URL of the tracker, the server that knows the peers sharing the torrent.
    pub announce: String,
    /// What the torrent holds.
    pub info: Info,
}

/// The info dictionary of a metainfo file.
#[derive(Debug, Clone, PartialEq, Eq)]
pub struct Info {
    /// Suggested name for the file or directory. Purely advisory.
    pub name: String,
    /// Number of bytes in each piece but the last, which may be shorter.
    pub plength: usize,
    /// The SHA-1 hash of each piece, by piece index.
    pub pieces: Hashes,
    /// The file or files. There is one or the other, never both and never neither.
    pub keys: Keys,
}

/// The content of a torrent: one file, or several.
#[derive(Debug, Clone, PartialEq, Eq)]
pub enum Keys {
    /// A single file.
    SingleFile {
        /// Length of the file in bytes.
        length: usize,
    },
    /// A set of files in a directory structure. For piece boundaries the files
    /// count as one, laid end to end in the order of the list.
    MultiFile { files: Vec<File> },
}

/// One file of a torrent with several files.
#[derive(Debug, Clone, PartialEq, Eq)]
pub struct File {
    /// Length of the file in bytes.
    pub length: usize,
    /// Names of the directories down to the file, the last being the file's name.
    pub path: Vec<String>,
}

/// Sum of the lengths of `files`.
pub open spec fn files_length(files: Seq<File>) -> nat
    decreases files.len(),
{
    if files.len() == 0 {
        0
    } else {
        files_length(files.drop_last()) + files.last().length as nat
    }
}

/// The strings of `parts` with `separator` between each two neighbours.
pub open spec fn joined_path(parts: Seq<String>, separator: Seq<char>) -> Seq<char>
    decreases parts.len(),
{
    if parts.len() == 0 {
        Seq::<char>::empty()
    } else if parts.len() == 1 {
        parts[0]@
    } else {
        joined_path(parts.drop_last(), separator) + separator + parts.last()@
    }
}

/// A string as a bencode value: the byte string of its UTF-8 bytes.
pub open spec fn text_value(text: Seq<char>) -> Bencode {
    Bencode::ByteString(encode_utf8(text))
}

/// A length as a bencode value.
pub open spec fn length_value(length: usize) -> Bencode {
    Bencode::Integer(length as i64)
}

impl File {
    /// The file as a bencode dictionary, with keys `length` and `path`.
    pub open spec fn bencode(self) -> Bencode {
        Bencode::Dictionary(
            dict_insert(
                dict_insert(Seq::empty(), "length".spec_bytes(), length_value(self.length)),
                "path".spec_bytes(),
                Bencode::List(Seq::new(self.path@.len(), |i: int| text_value(self.path@[i]@))),
            ),
        )
    }

    /// The file as a bencode dictionary.
    fn to_bencode(&self) -> (value: BencodeValue)
        requires
            self.length <= i64::MAX,
        ensures
            value@ == self.bencode(),
    {
        let mut segments: Vec<BencodeValue> = Vec::new();
        let mut i: usize = 0;
        while i < self.path.len()
            invariant
                i <= self.path.len(),
                segments@.len() == i,
                forall|k: int| 0 <= k < i ==> (#[trigger] segments@[k])@ == text_value(self.path@[k]@),
            decreases self.path.len() - i,
        {
            let bytes: Vec<u8> = slice_to_vec(self.path[i].as_str().as_bytes());
            segments.push(BencodeValue::ByteString(bytes));
            i = i + 1;
        }
        assert(values_view(segments@) =~= Seq::new(
            self.path@.len(),
            |i: int| text_value(self.path@[i]@),
        ));
        let mut dict: Dictionary = Dictionary::new();
        dict.insert(slice_to_vec("length".as_bytes()), BencodeValue::Integer(self.length as i64));
        dict.insert(slice_to_vec("path".as_bytes()), BencodeValue::List(segments));
        BencodeValue::Dictionary(dict)
    }
}

impl Keys {
    /// Number of bytes of content, over all files.
    pub open spec fn total_length(self) -> nat {
        match self {
            Keys::SingleFile { length } => length as nat,
            Keys::MultiFile { files } => files_length(files@),
        }
    }

    /// Every length fits a bencode integer.
    pub open spec fn encodable(self) -> bool {
        match self {
            Keys::SingleFile { length } => length <= i64::MAX,
            Keys::MultiFile { files } => forall|i: int|
                0 <= i < files@.len() ==> (#[trigger] files@[i]).length <= i64::MAX,
        }
    }
}

impl Info {
    /// Every length in the dictionary fits a bencode integer, which is a signed
    /// 64-bit number.
    pub open spec fn encodable(self) -> bool {
        self.plength <= i64::MAX && self.keys.encodable()
    }

    /// The info dictionary as a bencode value, with keys `name`, `piece length` and
    /// `pieces`, and `length` for a single file or `files` for several.
    pub open spec fn bencode(self) -> Bencode {
        let common = dict_insert(
            dict_insert(
                dict_insert(Seq::empty(), "name".spec_bytes(), text_value(self.name@)),
                "piece length".spec_bytes(),
                length_value(self.plength),
            ),
            "pieces".spec_bytes(),
            Bencode::ByteString(join_hashes(self.pieces@)),
        );
        Bencode::Dictionary(
            match self.keys {
                Keys::SingleFile { length } => dict_insert(
                    common,
                    "length".spec_bytes(),
                    length_value(length),
                ),
                Keys::MultiFile { files } => dict_insert(
                    common,
                    "files".spec_bytes(),
                    Bencode::List(Seq::new(files@.len(), |i: int| files@[i].bencode())),
                ),
            },
        )
    }

    /// Whether every length in the dictionary fits a bencode integer.
    pub fn is_encodable(&self) -> (fits: bool)
        ensures
            fits == self.encodable(),
    {
        if !fits_integer(self.plength) {
            return false;
        }
        match &self.keys {
            Keys::SingleFile { length } => fits_integer(*length),
            Keys::MultiFile { files } => {
                let mut i: usize = 0;
                while i < files.len()
                    invariant
                        i <= files.len(),
                        self.plength <= i64::MAX,
                        self.keys == (Keys::MultiFile { files: *files }),
                        forall|k: int| 0 <= k < i ==> (#[trigger] files@[k]).length <= i64::MAX,
                    decreases files.len() - i,
                {
                    if !fits_integer(files[i].length) {
                        assert(self.keys->files@[i as int].length > i64::MAX);
                        return false;
                    }
                    i = i + 1;
                }
                true
            },
        }
    }

    /// The info dictionary as a bencode value.
    pub fn to_bencode(&self) -> (value: BencodeValue)
        requires
            self.encodable(),
        ensures
            value@ == self.bencode(),
    {
        let mut dict: Dictionary = Dictionary::new();
        let name: Vec<u8> = slice_to_vec(self.name.as_str().as_bytes());
        dict.insert(slice_to_vec("name".as_bytes()), BencodeValue::ByteString(name));
        dict.insert(
            slice_to_vec("piece length".as_bytes()),
            BencodeValue::Integer(self.plength as i64),
        );
        dict.insert(
            slice_to_vec("pieces".as_bytes()),
            BencodeValue::ByteString(self.pieces.to_bytes()),
        );
        match &self.keys {
            Keys::SingleFile { length } => {
                dict.insert(slice_to_vec("length".as_bytes()), BencodeValue::Integer(*length as i64));
            },
            Keys::MultiFile { files } => {
                let mut list: Vec<BencodeValue> = Vec::new();
                let mut i: usize = 0;
                while i < files.len()
                    invariant
                        i <= files.len(),
                        list@.len() == i,
                        forall|k: int|
                            0 <= k < files@.len() ==> (#[trigger] files@[k]).length <= i64::MAX,
                        forall|k: int| 0 <= k < i ==> (#[trigger] list@[k])@ == files@[k].bencode(),
                    decreases files.len() - i,
                {
                    list.push(files[i].to_bencode());
                    i = i + 1;
                }
                assert(values_view(list@) =~= Seq::new(
                    files@.len(),
                    |i: int| files@[i].bencode(),
                ));
                dict.insert(slice_to_vec("files".as_bytes()), BencodeValue::List(list));
            },
        }
        BencodeValue::Dictionary(dict)
    }
}

impl Torrent {
    /// The info hash: the SHA-1 digest of the info dictionary in its canonical
    /// encoded form. It names the torrent to trackers and to peers.
    pub fn info_hash(&self) -> (hash: [u8; 20])
        requires
            self.info.encodable(),
        ensures
            hash@ == sha1_digest(encoding(self.info.bencode())),
    {
        let info_encoded: Vec<u8> = encode(&self.info.to_bencode());
        sha1(info_encoded.as_slice())
    }

    /// Number of bytes of content, over all files.
    pub open spec fn total_length(self) -> nat {
        self.info.keys.total_length()
    }

    /// Number of bytes of content, over all files.
    pub fn length(&self) -> (length: usize)
        requires
            self.total_length() <= usize::MAX,
        ensures
            length == self.total_length(),
    {
        match &self.info.keys {
            Keys::SingleFile { length } => *length,
            Keys::MultiFile { files } => {
                let mut sum: usize = 0;
                let mut i: usize = 0;
                assert(files@.take(0) =~= Seq::<File>::empty());
                while i < files.len()
                    invariant
                        i <= files.len(),
                        sum == files_length(files@.take(i as int)),
                        files_length(files@) <= usize::MAX,
                    decreases files.len() - i,
                {
                    proof {
                        lemma_files_length_prefix(files@, i + 1);
                        assert(files@.take(i + 1).drop_last() =~= files@.take(i as int));
                    }
                    sum = sum + files[i].length;
                    i = i + 1;
                }
                assert(files@.take(files.len() as int) =~= files@);
                sum
            },
        }
    }

    /// Number of bytes of content, over all files, where that number fits the
    /// machine's word.
    pub fn checked_length(&self) -> (length: Option<usize>)
        ensures
            match length {
                Some(n) => n == self.total_length(),
                None => self.total_length() > usize::MAX,
            },
    {
        match &self.info.keys {
            Keys::SingleFile { length } => Some(*length),
            Keys::MultiFile { files } => {
                let mut sum: usize = 0;
                let mut i: usize = 0;
                assert(files@.take(0) =~= Seq::<File>::empty());
                while i < files.len()
                    invariant
                        i <= files.len(),
                        sum == files_length(files@.take(i as int)),
                        self.total_length() == files_length(files@),
                    decreases files.len() - i,
                {
                    proof {
                        lemma_files_length_prefix(files@, i + 1);
                        assert(files@.take(i + 1).drop_last() =~= files@.take(i as int));
                    }
                    match sum.checked_add(files[i].length) {
                        Some(next) => {
                            sum = next;
                        },
                        None => {
                            return None;
                        },
                    }
                    i = i + 1;
                }
                assert(files@.take(files.len() as int) =~= files@);
                Some(sum)
            },
        }
    }

    /// The names of the torrent's files: the torrent's name for a single file; for
    /// several, the path of each, its parts joined by `separator`.
    pub fn tree(&self, separator: &str) -> (lines: Vec<String>)
        ensures
            match self.info.keys {
                Keys::SingleFile { .. } => lines@.len() == 1 && lines@[0]@ == self.info.name@,
                Keys::MultiFile { files } => lines@.len() == files@.len() && forall|i: int|
                    0 <= i < files@.len() ==> (#[trigger] lines@[i])@ == joined_path(
                        files@[i].path@,
                        separator@,
                    ),
            },
    {
        let mut lines: Vec<String> = Vec::new();
        match &self.info.keys {
            Keys::SingleFile { .. } => {
                lines.push(self.info.name.clone());
            },
            Keys::MultiFile { files } => {
                let mut i: usize = 0;
                while i < files.len()
                    invariant
                        i <= files.len(),
                        lines@.len() == i,
                        forall|k: int|
                            0 <= k < i ==> (#[trigger] lines@[k])@ == joined_path(
                                files@[k].path@,
                                separator@,
                            ),
                    decreases files.len() - i,
                {
                    lines.push(join_path(&files[i].path, separator));
                    i = i + 1;
                }
            },
        }
        lines
    }
}

/// Whether `n` fits a bencode integer.
fn fits_integer(n: usize) -> (fits: bool)
    ensures
        fits == (n <= i64::MAX),
{
    n as u64 <= 9223372036854775807
}

/// The strings of `parts` with `separator` between each two neighbours.
pub fn join_path(parts: &Vec<String>, separator: &str) -> (joined: String)
    ensures
        joined@ == joined_path(parts@, separator@),
{
    let mut joined: String = String::new();
    let mut i: usize = 0;
    assert(parts@.take(0) =~= Seq::<String>::empty());
    while i < parts.len()
        invariant
            i <= parts.len(),
            joined@ == joined_path(parts@.take(i as int), separator@),
        decreases parts.len() - i,
    {
        assert(parts@.take(i + 1).drop_last() =~= parts@.take(i as int));
        if i > 0 {
            joined.append(separator);
        }
        joined.append(parts[i].as_str());
        assert(joined@ =~= joined_path(parts@.take(i + 1), separator@));
        i = i + 1;
    }
    assert(parts@.take(parts.len() as int) =~= parts@);
    joined
}

/// The lengths of the first files add up to no more than those of all.
proof fn lemma_files_length_prefix(files: Seq<File>, n: int)
    requires
        0 <= n <= files.len(),
    ensures
        files_length(files.take(n)) <= files_length(files),
    decreases files.len(),
{
    if n == files.len() {
        assert(files.take(n) =~= files);
    } else {
        assert(files.drop_last().take(n) =~= files.take(n));
        lemma_files_length_prefix(files.drop_last(), n);
    }
}

} // verus!
