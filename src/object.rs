use crate::decimal::{
    all_digits, decimal, decimal_bytes, digits_value, lemma_decimal_digits, parse_decimal,
};
use crate::error::ObjectError;
use crate::outside::{
    push_char, sha1, sha1_digest, zlib_compress, zlib_decompress, zlib_deflated, zlib_inflated,
};
use crate::scan::{find_byte, first_index, lemma_first_index_at, lemma_first_index_bounds};
use vstd::prelude::*;
use vstd::string::StringExecFns;
use vstd::string::StringSliceAdditionalSpecFns;

verus! {

/// ASCII space, between the parts of a header or of a tree entry.
pub const SPACE: u8 = 32;

/// The NUL byte that ends a header or an entry name.
pub const NUL: u8 = 0;

/// The two kinds of stored object.
#[derive(Clone, Copy, Debug, PartialEq, Eq, Structural)]
pub enum ObjectType {
    Blob,
    Tree,
}

/// The lowercase tag of a kind: `blob` or `tree`, in ASCII.
pub open spec fn kind_name(k: ObjectType) -> Seq<u8> {
    match k {
        ObjectType::Blob => seq![98u8, 108u8, 111u8, 98u8],
        ObjectType::Tree => seq![116u8, 114u8, 101u8, 101u8],
    }
}

/// The kind whose tag is exactly `b`.
pub open spec fn kind_of(b: Seq<u8>) -> Option<ObjectType> {
    if b == kind_name(ObjectType::Blob) {
        Some(ObjectType::Blob)
    } else if b == kind_name(ObjectType::Tree) {
        Some(ObjectType::Tree)
    } else {
        None
    }
}

/// The header line that precedes a body of `n` bytes, NUL included.
pub open spec fn header(k: ObjectType, n: nat) -> Seq<u8> {
    kind_name(k) + seq![SPACE] + decimal(n) + seq![NUL]
}

/// The canonical encoding of an object: its header, then its body.
pub open spec fn serialize(k: ObjectType, body: Seq<u8>) -> Seq<u8> {
    header(k, body.len()) + body
}

/// Reads a header (without its NUL) of the form `<kind> <size>`: the tag, one
/// space, then decimal digits, exactly as `header` writes it. Other whitespace
/// around or between the parts is refused.
pub open spec fn parse_header(h: Seq<u8>) -> Option<(ObjectType, nat)> {
    if h.len() >= 6 && kind_of(h.take(4)) is Some && h[4] == SPACE && all_digits(h.skip(5))
        && digits_value(h.skip(5)) <= usize::MAX {
        Some((kind_of(h.take(4))->0, digits_value(h.skip(5))))
    } else {
        None
    }
}

/// Decodes raw object bytes: a header up to the first NUL, then a body whose
/// length must equal the size that the header gives.
pub open spec fn deserialize(raw: Seq<u8>) -> Option<(ObjectType, Seq<u8>)> {
    let z = first_index(raw, NUL, 0);
    if z >= raw.len() {
        None
    } else {
        match parse_header(raw.take(z)) {
            Some((k, n)) => if n == raw.len() - z - 1 {
                Some((k, raw.skip(z + 1)))
            } else {
                None
            },
            None => None,
        }
    }
}

/// The 20-byte identity of an object: the SHA-1 digest of its encoding.
pub open spec fn object_hash(k: ObjectType, body: Seq<u8>) -> Seq<u8> {
    sha1_digest(serialize(k, body))
}

/// Lowercase hexadecimal digit for a value below 16.
pub open spec fn hex_digit(d: u8) -> char {
    if d < 10 {
        (48 + d) as u8 as char
    } else {
        (87 + d) as u8 as char
    }
}

/// Two lowercase hexadecimal digits per byte, most significant first.
pub open spec fn hex_chars(b: Seq<u8>) -> Seq<char>
    decreases b.len(),
{
    if b.len() == 0 {
        Seq::empty()
    } else {
        hex_chars(b.drop_last()) + seq![hex_digit(b.last() / 16), hex_digit(b.last() % 16)]
    }
}

/// The storage key of a hex identifier: its first two characters, a slash, the rest.
pub open spec fn storage_key(hex: Seq<char>) -> Seq<char> {
    hex.take(2) + seq!['/'] + hex.skip(2)
}

/// Where the object named `hex` is stored below the objects directory `dir`.
pub open spec fn object_path(dir: Seq<char>, hex: Seq<char>) -> Seq<char> {
    dir + seq!['/'] + storage_key(hex)
}

pub proof fn lemma_hex_chars_len(b: Seq<u8>)
    ensures
        hex_chars(b).len() == 2 * b.len(),
    decreases b.len(),
{
    if b.len() > 0 {
        lemma_hex_chars_len(b.drop_last());
    }
}

fn hex_digit_char(d: u8) -> (c: char)
    requires
        d < 16,
    ensures
        c == hex_digit(d),
{
    if d < 10 {
        (48 + d) as char
    } else {
        (87 + d) as char
    }
}

/// Appends the hexadecimal rendering of `b[from..]` to `s`.
fn push_hex(s: &mut String, b: &Vec<u8>, from: usize)
    requires
        from <= b@.len(),
    ensures
        final(s)@ == old(s)@ + hex_chars(b@).skip(2 * from),
{
    let mut i: usize = from;
    proof {
        lemma_hex_chars_len(b@.take(from as int));
        assert(hex_chars(b@.take(from as int)).skip(2 * from) =~= Seq::<char>::empty());
    }
    while i < b.len()
        invariant
            from <= i <= b@.len(),
            s@ == old(s)@ + hex_chars(b@.take(i as int)).skip(2 * from),
        decreases b@.len() - i,
    {
        let ghost before = s@;
        push_char(s, hex_digit_char(b[i] / 16));
        push_char(s, hex_digit_char(b[i] % 16));
        proof {
            let pair = seq![hex_digit(b@[i as int] / 16), hex_digit(b@[i as int] % 16)];
            assert(b@.take(i + 1).drop_last() == b@.take(i as int));
            assert(hex_chars(b@.take(i + 1)) == hex_chars(b@.take(i as int)) + pair);
            lemma_hex_chars_len(b@.take(i as int));
            assert((hex_chars(b@.take(i as int)) + pair).skip(2 * from) =~= hex_chars(
                b@.take(i as int),
            ).skip(2 * from) + pair);
            assert(s@ =~= before + pair);
        }
        i = i + 1;
    }
    assert(b@.take(b@.len() as int) == b@);
}

/// A lowercase hexadecimal digit in ASCII.
pub open spec fn is_hex_byte(b: u8) -> bool {
    (48 <= b <= 57) || (97 <= b <= 102)
}

/// Forty lowercase hexadecimal digits: the text form of a hash.
pub open spec fn is_hex_id(b: Seq<u8>) -> bool {
    b.len() == 40 && forall|i: int| 0 <= i < 40 ==> is_hex_byte(#[trigger] b[i])
}

/// The characters that ASCII bytes stand for.
pub open spec fn ascii_chars(b: Seq<u8>) -> Seq<char> {
    b.map_values(|x: u8| x as char)
}

/// Appends the characters of the ASCII bytes `b[start..end]` to `s`.
fn push_ascii(s: &mut String, b: &[u8], start: usize, end: usize)
    requires
        start <= end <= b@.len(),
    ensures
        final(s)@ == old(s)@ + ascii_chars(b@.subrange(start as int, end as int)),
{
    let mut i: usize = start;
    while i < end
        invariant
            start <= i <= end <= b@.len(),
            s@ == old(s)@ + ascii_chars(b@.subrange(start as int, i as int)),
        decreases end - i,
    {
        push_char(s, b[i] as char);
        assert(ascii_chars(b@.subrange(start as int, i + 1)) =~= ascii_chars(
            b@.subrange(start as int, i as int),
        ).push(b@[i as int] as char));
        i = i + 1;
    }
}

/// Storage path of the object named by `hash_str` below the objects directory
/// `objects_dir`. Fails with `NotFound` unless `hash_str` is forty lowercase
/// hexadecimal digits, since no object has another name.
pub fn hash_to_object_file_path(objects_dir: &str, hash_str: &str) -> (r: Result<String, ObjectError>)
    ensures
        match r {
            Ok(p) => is_hex_id(hash_str.spec_bytes()) && p@ == object_path(
                objects_dir@,
                ascii_chars(hash_str.spec_bytes()),
            ),
            Err(e) => !is_hex_id(hash_str.spec_bytes()) && e == ObjectError::NotFound,
        },
{
    let b = hash_str.as_bytes();
    if b.len() != 40 {
        return Err(ObjectError::NotFound);
    }
    let mut i: usize = 0;
    while i < 40
        invariant
            i <= 40,
            b@.len() == 40,
            b@ == hash_str.spec_bytes(),
            forall|j: int| 0 <= j < i ==> is_hex_byte(#[trigger] b@[j]),
        decreases 40 - i,
    {
        let c = b[i];
        if !((48 <= c && c <= 57) || (97 <= c && c <= 102)) {
            assert(!is_hex_byte(b@[i as int]));
            assert(!is_hex_id(b@));
            return Err(ObjectError::NotFound);
        }
        i = i + 1;
    }
    let mut path = String::from_str(objects_dir);
    push_char(&mut path, '/');
    push_ascii(&mut path, b, 0, 2);
    push_char(&mut path, '/');
    push_ascii(&mut path, b, 2, 40);
    proof {
        let h = ascii_chars(b@);
        assert(ascii_chars(b@.subrange(0, 2)) =~= h.take(2));
        assert(ascii_chars(b@.subrange(2, 40)) =~= h.skip(2));
        assert(path@ =~= object_path(objects_dir@, h));
    }
    Ok(path)
}

impl ObjectType {
    /// The kind whose tag is the text `object_type` (`blob` or `tree`).
    pub fn from(object_type: &str) -> (r: Result<ObjectType, ObjectError>)
        ensures
            match kind_of(object_type.spec_bytes()) {
                Some(k) => r == Ok::<ObjectType, ObjectError>(k),
                None => r == Err::<ObjectType, ObjectError>(ObjectError::DecodeError),
            },
    {
        let b = object_type.as_bytes();
        assert(b@.subrange(0, b@.len() as int) == b@);
        match kind_at(b, 0, b.len()) {
            Some(k) => Ok(k),
            None => Err(ObjectError::DecodeError),
        }
    }
}

/// The kind whose tag is `b[start..end]`.
fn kind_at(b: &[u8], start: usize, end: usize) -> (r: Option<ObjectType>)
    requires
        start <= end <= b@.len(),
    ensures
        r == kind_of(b@.subrange(start as int, end as int)),
{
    let ghost t = b@.subrange(start as int, end as int);
    if end - start != 4 {
        assert(kind_name(ObjectType::Blob).len() == 4 && kind_name(ObjectType::Tree).len() == 4);
        return None;
    }
    assert(t.len() == 4);
    let (c0, c1, c2, c3) = (b[start], b[start + 1], b[start + 2], b[start + 3]);
    assert(t[0] == c0 && t[1] == c1 && t[2] == c2 && t[3] == c3);
    if c0 == 98 && c1 == 108 && c2 == 111 && c3 == 98 {
        assert(t =~= kind_name(ObjectType::Blob));
        Some(ObjectType::Blob)
    } else if c0 == 116 && c1 == 114 && c2 == 101 && c3 == 101 {
        assert(t =~= kind_name(ObjectType::Tree));
        Some(ObjectType::Tree)
    } else {
        assert(kind_name(ObjectType::Blob)[0] == 98);
        assert(kind_name(ObjectType::Tree)[0] == 116);
        None
    }
}

/// A typed record: its kind and its body bytes. Its size is the body's length.
#[derive(Debug)]
pub struct Object {
    object_type: ObjectType,
    object_body: Vec<u8>,
}

impl View for Object {
    type V = (ObjectType, Seq<u8>);

    closed spec fn view(&self) -> (ObjectType, Seq<u8>) {
        (self.object_type, self.object_body@)
    }
}

impl Object {
    /// An object of kind `object_type` holding `object_body`.
    pub fn new(object_type: ObjectType, object_body: Vec<u8>) -> (r: Object)
        ensures
            r@ == (object_type, object_body@),
    {
        Object { object_type, object_body }
    }

    /// The kind of this object.
    pub fn object_type(&self) -> (r: ObjectType)
        ensures
            r == self@.0,
    {
        self.object_type
    }

    /// The body of this object.
    pub fn body(&self) -> (r: &Vec<u8>)
        ensures
            r@ == self@.1,
    {
        &self.object_body
    }

    /// Decodes raw object bytes (header, NUL, body); fails with `DecodeError`
    /// exactly where `deserialize` has no result.
    pub fn from(raw_contents: Vec<u8>) -> (r: Result<Object, ObjectError>)
        ensures
            match deserialize(raw_contents@) {
                Some(v) => r matches Ok(o) && o@ == v,
                None => r matches Err(e) && e == ObjectError::DecodeError,
            },
    {
        let ghost raw = raw_contents@;
        let z = find_byte(&raw_contents, NUL, 0);
        proof {
            lemma_first_index_bounds(raw, NUL, 0);
        }
        if z >= raw_contents.len() {
            return Err(ObjectError::DecodeError);
        }
        let ghost h = raw.take(z as int);
        if z < 6 {
            return Err(ObjectError::DecodeError);
        }
        let kind = match kind_at(raw_contents.as_slice(), 0, 4) {
            Some(k) => k,
            None => {
                assert(h.take(4) == raw.subrange(0, 4));
                return Err(ObjectError::DecodeError);
            },
        };
        assert(h.take(4) == raw.subrange(0, 4));
        if raw_contents[4] != SPACE {
            return Err(ObjectError::DecodeError);
        }
        assert(h.skip(5) == raw.subrange(5, z as int));
        let size = match parse_decimal(&raw_contents, 5, z) {
            Some(n) => n,
            None => {
                return Err(ObjectError::DecodeError);
            },
        };
        if size != raw_contents.len() - z - 1 {
            return Err(ObjectError::DecodeError);
        }
        let mut object_body: Vec<u8> = Vec::new();
        let mut i: usize = z + 1;
        while i < raw_contents.len()
            invariant
                z + 1 <= i <= raw.len(),
                raw == raw_contents@,
                object_body@ == raw.subrange(z + 1, i as int),
            decreases raw.len() - i,
        {
            object_body.push(raw_contents[i]);
            assert(raw.subrange(z + 1, i + 1) == raw.subrange(z + 1, i as int).push(raw[i as int]));
            i = i + 1;
        }
        assert(raw.skip(z + 1) == raw.subrange(z + 1, raw.len() as int));
        Ok(Object { object_type: kind, object_body })
    }

    /// The canonical encoding: `<kind> <size>`, a NUL byte, then the body.
    pub fn get_contents(&self) -> (r: Vec<u8>)
        ensures
            r@ == serialize(self@.0, self@.1),
    {
        let mut contents: Vec<u8> = match self.object_type {
            ObjectType::Blob => vec![98u8, 108u8, 111u8, 98u8],
            ObjectType::Tree => vec![116u8, 114u8, 101u8, 101u8],
        };
        assert(contents@ == kind_name(self.object_type));
        contents.push(SPACE);
        let mut size = decimal_bytes(self.object_body.len());
        contents.append(&mut size);
        contents.push(NUL);
        assert(contents@ == header(self.object_type, self.object_body@.len()));
        let mut i: usize = 0;
        let ghost head = contents@;
        while i < self.object_body.len()
            invariant
                i <= self.object_body@.len(),
                contents@ == head + self.object_body@.take(i as int),
            decreases self.object_body@.len() - i,
        {
            contents.push(self.object_body[i]);
            assert(self.object_body@.take(i + 1) == self.object_body@.take(i as int).push(
                self.object_body@[i as int],
            ));
            i = i + 1;
        }
        assert(self.object_body@.take(i as int) == self.object_body@);
        contents
    }

    /// The 20-byte SHA-1 digest of the canonical encoding.
    pub fn get_hash(&self) -> (r: Vec<u8>)
        ensures
            r@ == object_hash(self@.0, self@.1),
            r@.len() == 20,
    {
        let contents = self.get_contents();
        sha1(contents.as_slice())
    }

    /// The hash as 40 lowercase hexadecimal characters.
    pub fn get_hash_as_str(&self) -> (r: String)
        ensures
            r@ == hex_chars(object_hash(self@.0, self@.1)),
            r@.len() == 40,
    {
        let hash = self.get_hash();
        let mut hash_str = String::new();
        push_hex(&mut hash_str, &hash, 0);
        proof {
            lemma_hex_chars_len(hash@);
            assert(hex_chars(hash@).skip(0) == hex_chars(hash@));
        }
        hash_str
    }

    /// Where the object is stored below the objects directory `objects_dir`:
    /// a slash, then the storage key of its hex hash.
    pub fn get_object_file_path(&self, objects_dir: &str) -> (r: String)
        ensures
            r@ == object_path(objects_dir@, hex_chars(object_hash(self@.0, self@.1))),
    {
        let hash = self.get_hash();
        let mut path = String::from_str(objects_dir);
        push_char(&mut path, '/');
        let ghost hex = hex_chars(hash@);
        let first = hash[0];
        push_char(&mut path, hex_digit_char(first / 16));
        push_char(&mut path, hex_digit_char(first % 16));
        push_char(&mut path, '/');
        let ghost mid = path@;
        push_hex(&mut path, &hash, 1);
        proof {
            lemma_hex_chars_len(hash@);
            let t1 = hash@.take(1);
            assert(t1.drop_last() =~= Seq::<u8>::empty());
            assert(hash@.take(1) + hash@.skip(1) == hash@);
            lemma_hex_chars_append(t1, hash@.skip(1));
            lemma_hex_chars_len(t1);
            assert(hex_chars(t1) =~= seq![hex_digit(first / 16), hex_digit(first % 16)]);
            assert(hex.take(2) =~= hex_chars(t1));
            assert(path@ =~= object_path(objects_dir@, hex));
        }
        path
    }

    /// The zlib-compressed canonical encoding, as it is written to storage.
    pub fn get_compressed_contents(&self) -> (r: Vec<u8>)
        ensures
            r@ == zlib_deflated(serialize(self@.0, self@.1)),
    {
        let contents = self.get_contents();
        match zlib_compress(contents.as_slice()) {
            Some(v) => v,
            None => Vec::new(),
        }
    }

    /// Decodes an object as it was read from storage: inflates the zlib stream,
    /// then decodes the raw bytes.
    pub fn from_compressed(data: &[u8]) -> (r: Result<Object, ObjectError>)
        ensures
            match zlib_inflated(data@) {
                None => r matches Err(e) && e == ObjectError::CompressionError,
                Some(raw) => match deserialize(raw) {
                    Some(v) => r matches Ok(o) && o@ == v,
                    None => r matches Err(e) && e == ObjectError::DecodeError,
                },
            },
    {
        match zlib_decompress(data) {
            Some(raw) => Object::from(raw),
            None => Err(ObjectError::CompressionError),
        }
    }
}

/// Hex of a concatenation is the concatenation of the hex renderings.
pub proof fn lemma_hex_chars_append(a: Seq<u8>, b: Seq<u8>)
    ensures
        hex_chars(a + b) == hex_chars(a) + hex_chars(b),
    decreases b.len(),
{
    if b.len() == 0 {
        assert(a + b =~= a);
        assert(hex_chars(a) + hex_chars(b) =~= hex_chars(a));
    } else {
        lemma_hex_chars_append(a, b.drop_last());
        assert((a + b).drop_last() =~= a + b.drop_last());
        assert((a + b).last() == b.last());
        assert(hex_chars(a + b) =~= hex_chars(a) + hex_chars(b));
    }
}

/// Decoding the encoding of an object gives back its kind and body, for every
/// body whose length fits in a `usize`.
pub proof fn lemma_round_trip(k: ObjectType, body: Seq<u8>)
    requires
        body.len() <= usize::MAX,
    ensures
        deserialize(serialize(k, body)) == Some((k, body)),
{
    let n = body.len();
    let raw = serialize(k, body);
    let d = decimal(n);
    lemma_decimal_digits(n);
    let z: int = 5 + d.len() as int;
    assert(raw[z] == NUL);
    assert forall|j: int| 0 <= j < z implies raw[j] != NUL by {
        if j >= 5 {
            assert(raw[j] == d[j - 5]);
        }
    }
    lemma_first_index_at(raw, NUL, 0, z);
    let h = raw.take(z);
    assert(h =~= kind_name(k) + seq![SPACE] + d);
    assert(h.take(4) =~= kind_name(k));
    assert(h.skip(5) =~= d);
    assert(raw.skip(z + 1) =~= body);
}

/// Equal kinds and bodies give equal hashes, the same storage path and the
/// same stored bytes, so storing the same content twice leaves one file.
pub proof fn lemma_content_addressing(k: ObjectType, body1: Seq<u8>, body2: Seq<u8>)
    requires
        body1 == body2,
    ensures
        object_hash(k, body1) == object_hash(k, body2),
        storage_key(hex_chars(object_hash(k, body1))) == storage_key(
            hex_chars(object_hash(k, body2)),
        ),
        zlib_deflated(serialize(k, body1)) == zlib_deflated(serialize(k, body2)),
{
}

} // verus!
