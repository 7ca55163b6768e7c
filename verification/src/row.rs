use vstd::prelude::*;
use vstd::bytes::{
    spec_u32_from_le_bytes,
    spec_u32_to_le_bytes,
    spec_u64_from_le_bytes,
    spec_u64_to_le_bytes,
    u32_from_le_bytes,
    u32_to_le_bytes,
    u64_from_le_bytes,
    u64_to_le_bytes,
    lemma_auto_spec_u32_to_from_le_bytes,
    lemma_auto_spec_u64_to_from_le_bytes,
};
use vstd::slice::{slice_subrange, slice_to_vec};
use vstd::utf8::{decode_utf8, encode_utf8, valid_utf8, encode_utf8_decode_utf8, encode_utf8_valid_utf8};

use crate::error::DbError;

verus! {

/// A record: its key and its text fields.
#[derive(Debug)]
pub struct Row {
    pub id: i64,
    pub fields: Vec<String>,
}

/// The abstract value of a [`Row`].
pub struct RowView {
    pub id: i64,
    pub fields: Seq<Seq<char>>,
}

impl View for Row {
    type V = RowView;

    open spec fn view(&self) -> RowView {
        RowView { id: self.id, fields: self.fields@.map_values(|s: String| s@) }
    }
}

/// Bytes of a field in a row image: its UTF-8 length as a little-endian
/// `u32`, then its UTF-8 bytes.
pub open spec fn encode_field(f: Seq<char>) -> Seq<u8> {
    spec_u32_to_le_bytes(encode_utf8(f).len() as u32) + encode_utf8(f)
}

/// Bytes of a list of fields, one after the other.
pub open spec fn encode_fields(fs: Seq<Seq<char>>) -> Seq<u8>
    decreases fs.len(),
{
    if fs.len() == 0 {
        Seq::empty()
    } else {
        encode_field(fs[0]) + encode_fields(fs.drop_first())
    }
}

/// The image of a row: the id as a little-endian `i64`, the number of
/// fields as a little-endian `u32`, then the fields.
pub open spec fn encode_row(r: RowView) -> Seq<u8> {
    spec_u64_to_le_bytes(r.id as u64) + spec_u32_to_le_bytes(r.fields.len() as u32) + encode_fields(
        r.fields,
    )
}

/// Every length in the image of a row fits in a `u32`, so that decoding
/// gives the row back.
pub open spec fn row_fits(r: RowView) -> bool {
    &&& r.fields.len() <= u32::MAX
    &&& forall|j: int| 0 <= j < r.fields.len() ==> #[trigger] encode_utf8(r.fields[j]).len() <= u32::MAX
}

/// The id stored in a row image.
pub open spec fn image_id(b: Seq<u8>) -> i64 {
    spec_u64_from_le_bytes(b.subrange(0, 8)) as i64
}

/// The number of fields stored in a row image.
pub open spec fn image_count(b: Seq<u8>) -> nat {
    spec_u32_from_le_bytes(b.subrange(8, 12)) as nat
}

/// The byte strings of `n` fields read from position `pos` of `b`, or
/// `None` when `b` ends too early.
pub open spec fn field_slices(b: Seq<u8>, pos: int, n: nat) -> Option<Seq<Seq<u8>>>
    decreases n,
{
    if n == 0 {
        Some(Seq::empty())
    } else if pos < 0 || pos + 4 > b.len() {
        None
    } else {
        let len = spec_u32_from_le_bytes(b.subrange(pos, pos + 4)) as int;
        if pos + 4 + len > b.len() {
            None
        } else {
            match field_slices(b, pos + 4 + len, (n - 1) as nat) {
                Some(rest) => Some(seq![b.subrange(pos + 4, pos + 4 + len)] + rest),
                None => None,
            }
        }
    }
}

/// `b` is long enough for everything that its header announces.
pub open spec fn image_complete(b: Seq<u8>) -> bool {
    b.len() >= 12 && field_slices(b, 12, image_count(b)) is Some
}

/// The byte strings of the fields of a complete row image.
pub open spec fn image_fields(b: Seq<u8>) -> Seq<Seq<u8>> {
    field_slices(b, 12, image_count(b))->0
}

/// Every field of a complete row image is valid UTF-8.
pub open spec fn image_text_ok(b: Seq<u8>) -> bool {
    forall|j: int| 0 <= j < image_fields(b).len() ==> valid_utf8(#[trigger] image_fields(b)[j])
}

/// Reading `n` fields from position `pos` of `b` stays within `b` up to
/// the first field that is not valid UTF-8, or to the end when every field
/// is valid.
pub open spec fn fields_readable(b: Seq<u8>, pos: int, n: nat) -> bool
    decreases n,
{
    if n == 0 {
        true
    } else if pos < 0 || pos + 4 > b.len() {
        false
    } else {
        let len = spec_u32_from_le_bytes(b.subrange(pos, pos + 4)) as int;
        if pos + 4 + len > b.len() {
            false
        } else if !valid_utf8(b.subrange(pos + 4, pos + 4 + len)) {
            true
        } else {
            fields_readable(b, pos + 4 + len, (n - 1) as nat)
        }
    }
}

/// The inputs that [`Row::decode`] reads without running past the end of
/// the bytes: the header is there, and so is every field up to the first
/// one that is not valid UTF-8.
pub open spec fn image_readable(b: Seq<u8>) -> bool {
    b.len() >= 12 && fields_readable(b, 12, image_count(b))
}

/// The row that a complete image with valid text decodes to.
pub open spec fn decode_image(b: Seq<u8>) -> RowView {
    RowView { id: image_id(b), fields: image_fields(b).map_values(|f: Seq<u8>| decode_utf8(f)) }
}

/// `String::from_utf8`: the string that `bytes` encode, exactly when they
/// are valid UTF-8.
#[verifier::external_body]
fn string_from_utf8(bytes: Vec<u8>) -> (r: Option<String>)
    ensures
        r matches Some(s) ==> valid_utf8(bytes@) && s@ == decode_utf8(bytes@),
        r is None ==> !valid_utf8(bytes@),
{
    String::from_utf8(bytes).ok()
}

/// A piece of a stretch of `b` that equals `s` equals the same piece of `s`.
pub proof fn lemma_subrange_within(b: Seq<u8>, pos: int, s: Seq<u8>, off: int, len: int)
    requires
        0 <= pos,
        pos + s.len() <= b.len(),
        b.subrange(pos, pos + s.len()) == s,
        0 <= off,
        0 <= len,
        off + len <= s.len(),
    ensures
        b.subrange(pos + off, pos + off + len) == s.subrange(off, off + len),
{
    assert forall|j: int| 0 <= j < len implies #[trigger] b.subrange(pos + off, pos + off + len)[j] == s.subrange(off, off + len)[j] by {
        assert(b.subrange(pos, pos + s.len())[off + j] == s[off + j]);
    }
    assert(b.subrange(pos + off, pos + off + len) =~= s.subrange(off, off + len));
}

/// Reading `n` fields gives `n` byte strings.
pub proof fn lemma_field_slices_len(b: Seq<u8>, pos: int, n: nat)
    requires
        field_slices(b, pos, n) is Some,
    ensures
        field_slices(b, pos, n)->0.len() == n,
    decreases n,
{
    if n > 0 {
        let len = spec_u32_from_le_bytes(b.subrange(pos, pos + 4)) as int;
        lemma_field_slices_len(b, pos + 4 + len, (n - 1) as nat);
    }
}

/// One step of reading fields: the first field and the rest.
pub proof fn lemma_field_slices_step(b: Seq<u8>, pos: int, n: nat)
    requires
        n > 0,
        field_slices(b, pos, n) is Some,
    ensures
        0 <= pos,
        pos + 4 <= b.len(),
        ({
            let len = spec_u32_from_le_bytes(b.subrange(pos, pos + 4)) as int;
            &&& pos + 4 + len <= b.len()
            &&& field_slices(b, pos + 4 + len, (n - 1) as nat) is Some
            &&& field_slices(b, pos, n)->0 == seq![b.subrange(pos + 4, pos + 4 + len)] + field_slices(
                b,
                pos + 4 + len,
                (n - 1) as nat,
            )->0
        }),
{
}

/// Adding one field at the end of a list adds its bytes at the end.
pub proof fn lemma_encode_fields_push(fs: Seq<Seq<char>>, f: Seq<char>)
    ensures
        encode_fields(fs.push(f)) == encode_fields(fs) + encode_field(f),
    decreases fs.len(),
{
    if fs.len() == 0 {
        assert(fs.push(f).drop_first() =~= Seq::<Seq<char>>::empty());
        assert(fs.push(f)[0] == f);
        assert(encode_fields(Seq::<Seq<char>>::empty()) == Seq::<u8>::empty());
        assert(encode_fields(fs.push(f)) =~= encode_field(f));
    } else {
        assert(fs.push(f).drop_first() =~= fs.drop_first().push(f));
        lemma_encode_fields_push(fs.drop_first(), f);
        assert(encode_fields(fs.push(f)) =~= encode_fields(fs) + encode_field(f));
    }
}

/// Reading back the fields of an encoding gives their UTF-8 bytes.
pub proof fn lemma_field_slices(b: Seq<u8>, pos: int, fs: Seq<Seq<char>>)
    requires
        0 <= pos,
        pos + encode_fields(fs).len() <= b.len(),
        b.subrange(pos, pos + encode_fields(fs).len()) == encode_fields(fs),
        forall|j: int| 0 <= j < fs.len() ==> #[trigger] encode_utf8(fs[j]).len() <= u32::MAX,
    ensures
        field_slices(b, pos, fs.len()) == Some(fs.map_values(|f: Seq<char>| encode_utf8(f))),
    decreases fs.len(),
{
    if fs.len() > 0 {
        let e = encode_utf8(fs[0]);
        let rest = fs.drop_first();
        let er = encode_fields(rest);
        lemma_auto_spec_u32_to_from_le_bytes();
        let hdr = spec_u32_to_le_bytes(e.len() as u32);
        assert(encode_fields(fs) == hdr + e + er);
        let whole = hdr + e + er;
        let el = e.len() as int;
        let erl = er.len() as int;
        assert(hdr.len() == 4);
        lemma_subrange_within(b, pos, whole, 0, 4);
        lemma_subrange_within(b, pos, whole, 4, el);
        lemma_subrange_within(b, pos, whole, 4 + el, erl);
        assert(whole.subrange(0, 4) =~= hdr);
        assert(whole.subrange(4, 4 + el) =~= e);
        assert(whole.subrange(4 + el, 4 + el + erl) =~= er);
        assert forall|j: int| 0 <= j < rest.len() implies #[trigger] encode_utf8(rest[j]).len() <= u32::MAX by {
            assert(rest[j] == fs[j + 1]);
        }
        lemma_field_slices(b, pos + 4 + e.len(), rest);
        assert(fs.map_values(|f: Seq<char>| encode_utf8(f)) =~= seq![e] + rest.map_values(
            |f: Seq<char>| encode_utf8(f),
        ));
    } else {
        assert(fs.map_values(|f: Seq<char>| encode_utf8(f)) =~= Seq::<Seq<u8>>::empty());
    }
}

/// Decoding the image of a row gives the row back, whenever its lengths
/// fit in a `u32` (they do for every row that fits in a page).
pub proof fn law_decode_encode(r: RowView)
    requires
        row_fits(r),
    ensures
        image_complete(encode_row(r)),
        image_text_ok(encode_row(r)),
        decode_image(encode_row(r)) == r,
{
    let b = encode_row(r);
    lemma_auto_spec_u64_to_from_le_bytes();
    lemma_auto_spec_u32_to_from_le_bytes();
    let idb = spec_u64_to_le_bytes(r.id as u64);
    let nb = spec_u32_to_le_bytes(r.fields.len() as u32);
    let fb = encode_fields(r.fields);
    assert(b.subrange(0, 8) =~= idb);
    assert(b.subrange(8, 12) =~= nb);
    assert(b.subrange(12, 12 + fb.len() as int) =~= fb);
    assert(image_count(b) == r.fields.len());
    lemma_field_slices(b, 12, r.fields);
    let slices = r.fields.map_values(|f: Seq<char>| encode_utf8(f));
    assert(image_fields(b) == slices);
    assert forall|j: int| 0 <= j < image_fields(b).len() implies valid_utf8(#[trigger] image_fields(b)[j]) by {
        encode_utf8_valid_utf8(r.fields[j]);
    }
    let id = r.id;
    assert(((id as u64) as i64) == id) by (bit_vector);
    assert forall|j: int| 0 <= j < r.fields.len() implies #[trigger] decode_image(b).fields[j] == r.fields[j] by {
        encode_utf8_decode_utf8(r.fields[j]);
    }
    assert(decode_image(b).fields =~= r.fields);
}

impl Row {
    /// The image of the row: see [`encode_row`].
    pub fn encode(&self) -> (buf: Vec<u8>)
        ensures
            buf@ == encode_row(self@),
    {
        let mut buf: Vec<u8> = Vec::new();
        let mut id_bytes = u64_to_le_bytes(self.id as u64);
        buf.append(&mut id_bytes);
        let mut count_bytes = u32_to_le_bytes(self.fields.len() as u32);
        buf.append(&mut count_bytes);
        let ghost header = buf@;
        let ghost fs = self@.fields;
        let mut i: usize = 0;
        while i < self.fields.len()
            invariant
                0 <= i <= self.fields@.len(),
                fs == self@.fields,
                fs.len() == self.fields@.len(),
                header == spec_u64_to_le_bytes(self.id as u64) + spec_u32_to_le_bytes(fs.len() as u32),
                buf@ == header + encode_fields(fs.take(i as int)),
            decreases self.fields@.len() - i,
        {
            let f = self.fields[i].as_str().as_bytes();
            let mut len_bytes = u32_to_le_bytes(f.len() as u32);
            buf.append(&mut len_bytes);
            let mut text = slice_to_vec(f);
            buf.append(&mut text);
            proof {
                assert(fs[i as int] == self.fields@[i as int]@);
                lemma_encode_fields_push(fs.take(i as int), fs[i as int]);
                assert(fs.take(i as int).push(fs[i as int]) =~= fs.take(i + 1));
            }
            i = i + 1;
        }
        proof {
            assert(fs.take(i as int) =~= fs);
        }
        buf
    }

    /// Reads a row back from its image.  Fails with a parse error when a
    /// field is not valid UTF-8, at the first such field.
    pub fn decode(bytes: &[u8]) -> (r: Result<Self, DbError>)
        requires
            image_readable(bytes@),
        ensures
            r is Ok <==> image_complete(bytes@) && image_text_ok(bytes@),
            r matches Ok(row) ==> row@ == decode_image(bytes@),
            r matches Err(e) ==> (e matches DbError::Parse(m) && m@ == "UTF-8"@),
    {
        let ghost b = bytes@;
        let id = u64_from_le_bytes(slice_subrange(bytes, 0, 8)) as i64;
        let num = u32_from_le_bytes(slice_subrange(bytes, 8, 12));
        let mut pos: usize = 12;
        let mut fields: Vec<String> = Vec::new();
        let ghost mut done: Seq<Seq<u8>> = Seq::empty();
        let mut n: u32 = 0;
        let blen = bytes.len();
        while n < num
            invariant
                b == bytes@,
                blen == b.len(),
                num as nat == image_count(b),
                n <= num,
                12 <= pos <= b.len(),
                fields_readable(b, pos as int, (num - n) as nat),
                done.len() == n,
                fields@.len() == n,
                forall|j: int| 0 <= j < n ==> valid_utf8(#[trigger] done[j]),
                forall|j: int| 0 <= j < n ==> #[trigger] fields@[j]@ == decode_utf8(done[j]),
                field_slices(b, 12, num as nat) == match field_slices(b, pos as int, (num - n) as nat) {
                    Some(rest) => Some(done + rest),
                    None => None::<Seq<Seq<u8>>>,
                },
            decreases num - n,
        {
            let ghost m = (num - n) as nat;
            let len = u32_from_le_bytes(slice_subrange(bytes, pos, pos + 4)) as usize;
            let ghost slice = b.subrange(pos + 4, pos + 4 + len);
            proof {
                assert(len == spec_u32_from_le_bytes(b.subrange(pos as int, pos + 4)));
                assert(field_slices(b, pos as int, m) == match field_slices(b, pos + 4 + len, (m - 1) as nat) {
                    Some(rest) => Some(seq![slice] + rest),
                    None => None::<Seq<Seq<u8>>>,
                });
            }
            pos = pos + 4;
            let text = slice_to_vec(slice_subrange(bytes, pos, pos + len));
            match string_from_utf8(text) {
                Some(s) => {
                    fields.push(s);
                },
                None => {
                    proof {
                        assert(!valid_utf8(slice));
                        if image_complete(b) {
                            let rest = field_slices(b, pos + len, (m - 1) as nat)->0;
                            assert(image_fields(b) == done + (seq![slice] + rest));
                            assert(image_fields(b)[n as int] == slice);
                        }
                    }
                    return Err(DbError::Parse("UTF-8".to_owned()));
                },
            }
            proof {
                match field_slices(b, pos + len, (m - 1) as nat) {
                    Some(rest) => {
                        assert(done + (seq![slice] + rest) =~= done.push(slice) + rest);
                    },
                    None => {},
                }
                done = done.push(slice);
            }
            pos = pos + len;
            n = n + 1;
        }
        let row = Row { id, fields };
        proof {
            assert(field_slices(b, pos as int, 0) == Some(Seq::<Seq<u8>>::empty()));
            assert(done + Seq::<Seq<u8>>::empty() =~= done);
            assert(image_fields(b) == done);
            assert(row@.fields =~= decode_image(b).fields);
        }
        Ok(row)
    }

    /// Whether [`Row::decode`] reads `bytes` without running past their end:
    /// see [`image_readable`].
    pub fn is_readable(bytes: &[u8]) -> (b: bool)
        ensures
            b == image_readable(bytes@),
    {
        let ghost b = bytes@;
        let blen = bytes.len();
        if blen < 12 {
            return false;
        }
        let num = u32_from_le_bytes(slice_subrange(bytes, 8, 12));
        let mut pos: usize = 12;
        let mut n: u32 = 0;
        while n < num
            invariant
                b == bytes@,
                blen == b.len(),
                b.len() >= 12,
                num as nat == image_count(b),
                n <= num,
                12 <= pos <= b.len(),
                fields_readable(b, 12, num as nat) == fields_readable(b, pos as int, (num - n) as nat),
            decreases num - n,
        {
            if blen - pos < 4 {
                return false;
            }
            let len = u32_from_le_bytes(slice_subrange(bytes, pos, pos + 4)) as usize;
            if len > blen - pos - 4 {
                return false;
            }
            let text = slice_to_vec(slice_subrange(bytes, pos + 4, pos + 4 + len));
            if string_from_utf8(text).is_none() {
                return true;
            }
            pos = pos + 4 + len;
            n = n + 1;
        }
        true
    }

    /// Whether `bytes` hold everything that their header announces, so that
    /// [`Row::decode`] can read them.
    pub fn is_complete(bytes: &[u8]) -> (b: bool)
        ensures
            b == image_complete(bytes@),
    {
        let ghost b = bytes@;
        let blen = bytes.len();
        if blen < 12 {
            return false;
        }
        let num = u32_from_le_bytes(slice_subrange(bytes, 8, 12));
        let mut pos: usize = 12;
        let mut n: u32 = 0;
        while n < num
            invariant
                b == bytes@,
                blen == b.len(),
                b.len() >= 12,
                num as nat == image_count(b),
                n <= num,
                12 <= pos <= b.len(),
                field_slices(b, 12, num as nat) is Some <==> field_slices(b, pos as int, (num - n) as nat) is Some,
            decreases num - n,
        {
            if blen - pos < 4 {
                return false;
            }
            let len = u32_from_le_bytes(slice_subrange(bytes, pos, pos + 4)) as usize;
            if len > blen - pos - 4 {
                return false;
            }
            pos = pos + 4 + len;
            n = n + 1;
        }
        true
    }
}

/// Reading the fields of a complete image stays within it.
pub proof fn lemma_complete_readable(b: Seq<u8>)
    requires
        image_complete(b),
    ensures
        image_readable(b),
{
    lemma_fields_readable(b, 12, image_count(b));
}

proof fn lemma_fields_readable(b: Seq<u8>, pos: int, n: nat)
    requires
        field_slices(b, pos, n) is Some,
    ensures
        fields_readable(b, pos, n),
    decreases n,
{
    if n > 0 {
        let len = spec_u32_from_le_bytes(b.subrange(pos, pos + 4)) as int;
        lemma_fields_readable(b, pos + 4 + len, (n - 1) as nat);
    }
}

} // verus!
