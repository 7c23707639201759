//! The recursive tagged-tree binary format: a reader and writer for
//! self-describing structured data, with resource accounting and a recursion
//! depth cap as decode-time safety mechanisms.
//!
//! Strings on the wire use Java's modified UTF-8 (the CESU-8 variant) behind
//! a two-byte big-endian length. All multi-byte scalars are big-endian.

use vstd::prelude::*;
use vstd::utf8::encode_utf8;

use crate::error::ErrorType;
use crate::error::TransportError;
use crate::error::TransportResult;
use crate::packet::primitive::be_bytes;
use crate::packet::primitive::be_value;
use crate::packet::primitive::lemma_be_bytes_len;
use crate::packet::primitive::lemma_be_roundtrip;
use crate::packet::primitive::lemma_be_value_bound;
use crate::packet::primitive::lemma_pow256_values;
use crate::packet::primitive::read_be;
use crate::packet::primitive::write_be;
use crate::reader::ByteReader;

verus! {

/// The type identifier of a compound tag.
pub const COMPOUND_TAG_BIT: u8 = 10;

/// The recursion depth cap for lists and compounds.
pub const MAX_TAG_DEPTH: i32 = 512;

/// What `cesu8::to_java_cesu8` returns for a character sequence: Java's
/// modified UTF-8 image of the string.
pub uninterp spec fn java_cesu8(s: Seq<char>) -> Seq<u8>;

/// What `cesu8::from_java_cesu8` returns for a byte sequence: the decoded
/// character sequence, or nothing when the bytes are rejected.
pub uninterp spec fn java_cesu8_decode(b: Seq<u8>) -> Option<Seq<char>>;

/// Relies on `cesu8::to_java_cesu8`: it encodes a string in Java's modified
/// UTF-8, the result depends on the characters alone, and decoding the
/// result yields the characters back.
#[verifier::external_body]
fn to_java_cesu8(s: &String) -> (r: Vec<u8>)
    ensures
        r@ == java_cesu8(s@),
        java_cesu8_decode(r@) == Some(s@),
{
    cesu8::to_java_cesu8(s).into_owned()
}

/// Relies on `cesu8::from_java_cesu8`: it decodes Java's modified UTF-8, and
/// the result depends on the bytes alone.
#[verifier::external_body]
fn from_java_cesu8(b: &Vec<u8>) -> (r: Option<String>)
    ensures
        r matches Some(s) ==> java_cesu8_decode(b@) == Some(s@),
        r is None ==> java_cesu8_decode(b@) is None,
{
    match cesu8::from_java_cesu8(b) {
        Ok(c) => Some(c.into_owned()),
        Err(_) => None,
    }
}

/// A tag: one node of the tagged tree. Floating-point payloads are carried
/// as their IEEE-754 bit patterns, which is exactly what the wire holds.
#[derive(Debug, PartialEq)]
pub enum Tag {
    /// The end marker.
    EndTag,
    /// An 8-bit integer.
    ByteTag(u8),
    /// A 16-bit integer.
    ShortTag(i16),
    /// A 32-bit integer.
    IntTag(i32),
    /// A 64-bit integer.
    LongTag(i64),
    /// A 32-bit float, as its bit pattern.
    FloatTag(u32),
    /// A 64-bit float, as its bit pattern.
    DoubleTag(u64),
    /// A run of raw bytes.
    ByteArrayTag(Vec<u8>),
    /// A string.
    StringTag(String),
    /// A homogeneous list: the element type identifier and the elements.
    ListTag(u8, Vec<Tag>),
    /// An ordered mapping from string key to tag.
    CompoundTag(CompoundTag),
    /// An array of 32-bit integers.
    IntArrayTag(Vec<i32>),
    /// An array of 64-bit integers.
    LongArrayTag(Vec<i64>),
}

/// An associative container from string key to tag. Keys are unique; the
/// insertion order is kept and is the order entries are written in.
#[derive(Debug, PartialEq)]
pub struct CompoundTag {
    mappings: Vec<(String, Tag)>,
}

/// The mathematical model of a tag.
pub enum TagV {
    /// The end marker.
    End,
    /// An 8-bit integer.
    Byte(u8),
    /// A 16-bit integer.
    Short(i16),
    /// A 32-bit integer.
    Int(i32),
    /// A 64-bit integer.
    Long(i64),
    /// A 32-bit float's bit pattern.
    Float(u32),
    /// A 64-bit float's bit pattern.
    Double(u64),
    /// A run of raw bytes.
    Bytes(Seq<u8>),
    /// A string.
    Str(Seq<char>),
    /// A homogeneous list.
    List(u8, Seq<TagV>),
    /// An ordered mapping from string key to tag.
    Compound(Seq<(Seq<char>, TagV)>),
    /// An array of 32-bit integers.
    Ints(Seq<i32>),
    /// An array of 64-bit integers.
    Longs(Seq<i64>),
}

/// The models of a sequence of tags, elementwise.
pub open spec fn tags_view(v: Seq<Tag>) -> Seq<TagV>
    decreases v,
{
    if v.len() == 0 {
        Seq::empty()
    } else {
        tags_view(v.drop_last()).push(v.last().deep_view())
    }
}

/// The models of a sequence of compound entries, elementwise.
pub open spec fn entries_view(v: Seq<(String, Tag)>) -> Seq<(Seq<char>, TagV)>
    decreases v,
{
    if v.len() == 0 {
        Seq::empty()
    } else {
        entries_view(v.drop_last()).push((v.last().0@, v.last().1.deep_view()))
    }
}

/// A sequence-of-tags model has one model for each tag.
pub proof fn lemma_tags_view_index(v: Seq<Tag>)
    ensures
        tags_view(v).len() == v.len(),
        forall|i: int| 0 <= i < v.len() ==> tags_view(v)[i] == v[i].deep_view(),
    decreases v,
{
    if v.len() > 0 {
        lemma_tags_view_index(v.drop_last());
        assert(tags_view(v) == tags_view(v.drop_last()).push(v.last().deep_view()));
        assert forall|i: int| 0 <= i < v.len() implies tags_view(v)[i] == v[i].deep_view() by {
            if i < v.len() - 1 {
                assert(tags_view(v)[i] == tags_view(v.drop_last())[i]);
                assert(v.drop_last()[i] == v[i]);
            } else {
                assert(tags_view(v)[i] == v.last().deep_view());
            }
        }
    }
}

/// An entry-sequence model has one model for each entry.
pub proof fn lemma_entries_view_index(v: Seq<(String, Tag)>)
    ensures
        entries_view(v).len() == v.len(),
        forall|i: int| 0 <= i < v.len() ==> entries_view(v)[i] == (v[i].0@, v[i].1.deep_view()),
    decreases v,
{
    if v.len() > 0 {
        lemma_entries_view_index(v.drop_last());
        assert forall|i: int|
            0 <= i < v.len() implies entries_view(v)[i] == (v[i].0@, v[i].1.deep_view()) by {
            if i < v.len() - 1 {
                assert(entries_view(v)[i] == entries_view(v.drop_last())[i]);
                assert(v.drop_last()[i] == v[i]);
            } else {
                assert(entries_view(v)[i] == (v.last().0@, v.last().1.deep_view()));
            }
        }
    }
}

impl DeepView for Tag {
    type V = TagV;

    open spec fn deep_view(&self) -> TagV
        decreases self,
    {
        match self {
            Tag::EndTag => TagV::End,
            Tag::ByteTag(v) => TagV::Byte(*v),
            Tag::ShortTag(v) => TagV::Short(*v),
            Tag::IntTag(v) => TagV::Int(*v),
            Tag::LongTag(v) => TagV::Long(*v),
            Tag::FloatTag(v) => TagV::Float(*v),
            Tag::DoubleTag(v) => TagV::Double(*v),
            Tag::ByteArrayTag(v) => TagV::Bytes(v@),
            Tag::StringTag(v) => TagV::Str(v@),
            Tag::ListTag(id, items) => TagV::List(*id, tags_view(items@)),
            Tag::CompoundTag(c) => TagV::Compound(c.deep_view()),
            Tag::IntArrayTag(v) => TagV::Ints(v@),
            Tag::LongArrayTag(v) => TagV::Longs(v@),
        }
    }
}

impl DeepView for CompoundTag {
    type V = Seq<(Seq<char>, TagV)>;

    closed spec fn deep_view(&self) -> Seq<(Seq<char>, TagV)>
        decreases self,
    {
        entries_view(self.mappings@)
    }
}

/// The one-byte type identifier of a tag model.
pub open spec fn spec_tag_id(t: TagV) -> u8 {
    match t {
        TagV::End => 0,
        TagV::Byte(_) => 1,
        TagV::Short(_) => 2,
        TagV::Int(_) => 3,
        TagV::Long(_) => 4,
        TagV::Float(_) => 5,
        TagV::Double(_) => 6,
        TagV::Bytes(_) => 7,
        TagV::Str(_) => 8,
        TagV::List(_, _) => 9,
        TagV::Compound(_) => 10,
        TagV::Ints(_) => 11,
        TagV::Longs(_) => 12,
    }
}

impl Tag {
    /// The one-byte type identifier of this tag.
    pub fn get_bit(&self) -> (r: u8)
        ensures
            r == spec_tag_id(self.deep_view()),
    {
        match self {
            Tag::EndTag => 0,
            Tag::ByteTag(_) => 1,
            Tag::ShortTag(_) => 2,
            Tag::IntTag(_) => 3,
            Tag::LongTag(_) => 4,
            Tag::FloatTag(_) => 5,
            Tag::DoubleTag(_) => 6,
            Tag::ByteArrayTag(_) => 7,
            Tag::StringTag(_) => 8,
            Tag::ListTag(_, _) => 9,
            Tag::CompoundTag(_) => 10,
            Tag::IntArrayTag(_) => 11,
            Tag::LongArrayTag(_) => 12,
        }
    }

    /// Builds an 8-bit integer tag.
    pub fn byte_tag(i: u8) -> (r: Tag)
        ensures
            r.deep_view() == TagV::Byte(i),
    {
        Tag::ByteTag(i)
    }

    /// Builds a 16-bit integer tag.
    pub fn short_tag(i: i16) -> (r: Tag)
        ensures
            r.deep_view() == TagV::Short(i),
    {
        Tag::ShortTag(i)
    }

    /// Builds a 32-bit integer tag.
    pub fn int_tag(i: i32) -> (r: Tag)
        ensures
            r.deep_view() == TagV::Int(i),
    {
        Tag::IntTag(i)
    }

    /// Builds a 64-bit integer tag.
    pub fn long_tag(i: i64) -> (r: Tag)
        ensures
            r.deep_view() == TagV::Long(i),
    {
        Tag::LongTag(i)
    }

    /// Builds a byte array tag.
    pub fn byte_array_tag(i: Vec<u8>) -> (r: Tag)
        ensures
            r.deep_view() == TagV::Bytes(i@),
    {
        Tag::ByteArrayTag(i)
    }

    /// Builds a string tag.
    pub fn string_tag(i: String) -> (r: Tag)
        ensures
            r.deep_view() == TagV::Str(i@),
    {
        Tag::StringTag(i)
    }

    /// Builds a 32-bit integer array tag.
    pub fn int_array_tag(i: Vec<i32>) -> (r: Tag)
        ensures
            r.deep_view() == TagV::Ints(i@),
    {
        Tag::IntArrayTag(i)
    }

    /// Builds a 64-bit integer array tag.
    pub fn long_array_tag(i: Vec<i64>) -> (r: Tag)
        ensures
            r.deep_view() == TagV::Longs(i@),
    {
        Tag::LongArrayTag(i)
    }
}

/// The keys of a compound model, in entry order.
pub open spec fn compound_keys(entries: Seq<(Seq<char>, TagV)>) -> Seq<Seq<char>> {
    entries.map(|i: int, e: (Seq<char>, TagV)| e.0)
}

/// Whether a compound model holds each key at most once.
pub open spec fn compound_keys_unique(entries: Seq<(Seq<char>, TagV)>) -> bool {
    forall|i: int, j: int|
        0 <= i < j < entries.len() ==> (#[trigger] entries[i]).0 != (#[trigger] entries[j]).0
}

impl CompoundTag {
    /// Each key occurs at most once.
    pub open spec fn wf(self) -> bool {
        compound_keys_unique(self.deep_view())
    }

    /// Creates an empty compound.
    pub fn new() -> (r: Self)
        ensures
            r.deep_view() == Seq::<(Seq<char>, TagV)>::empty(),
            r.wf(),
    {
        let r = CompoundTag { mappings: Vec::new() };
        proof {
            assert(r.deep_view() =~= Seq::<(Seq<char>, TagV)>::empty());
        }
        r
    }

    /// How many entries the compound holds.
    pub fn len(&self) -> (n: usize)
        ensures
            n == self.deep_view().len(),
    {
        proof {
            lemma_entries_view_index(self.mappings@);
        }
        self.mappings.len()
    }

    /// Inserts a tag under a key: an existing entry with the same key is
    /// replaced in place, otherwise the entry is appended.
    pub fn put_tag(&mut self, location: String, tag: Tag)
        requires
            old(self).wf(),
        ensures
            final(self).wf(),
            final(self).deep_view() == spec_compound_put(
                old(self).deep_view(),
                location@,
                tag.deep_view(),
            ),
    {
        let n = self.mappings.len();
        let mut i: usize = 0;
        while i < n
            invariant
                self.wf(),
                i <= n,
                n == self.mappings@.len(),
                self == old(self),
                forall|j: int| 0 <= j < i ==> self.deep_view()[j].0 != location@,
            decreases n - i,
        {
            proof {
                lemma_entries_view_index(self.mappings@);
            }
            let hit = {
                let entry = &self.mappings[i];
                entry.0 == location
            };
            if hit {
                let ghost pre = self.deep_view();
                self.mappings.set(i, (location, tag));
                proof {
                    lemma_entries_view_index(old(self).mappings@);
                    lemma_entries_view_index(self.mappings@);
                    assert(self.deep_view() =~= pre.update(
                        i as int,
                        (location@, tag.deep_view()),
                    ));
                    lemma_compound_put_replace(
                        pre,
                        self.deep_view(),
                        location@,
                        tag.deep_view(),
                        i as int,
                    );
                }
                return ;
            }
            i = i + 1;
        }
        let ghost pre = self.deep_view();
        self.mappings.push((location, tag));
        proof {
            lemma_entries_view_index(old(self).mappings@);
            lemma_entries_view_index(self.mappings@);
            assert(self.deep_view() =~= pre.push((location@, tag.deep_view())));
            lemma_compound_put_append(pre, self.deep_view(), location@, tag.deep_view());
        }
    }

    /// Looks up the tag stored under a key.
    pub fn get_tag(&self, location: &String) -> (r: Option<&Tag>)
        requires
            self.wf(),
        ensures
            r matches Some(t) ==> spec_compound_get(self.deep_view(), location@) == Some(
                t.deep_view(),
            ),
            r is None ==> spec_compound_get(self.deep_view(), location@) is None,
    {
        let n = self.mappings.len();
        let mut i: usize = 0;
        while i < n
            invariant
                self.wf(),
                i <= n,
                n == self.mappings@.len(),
                forall|j: int| 0 <= j < i ==> self.deep_view()[j].0 != location@,
            decreases n - i,
        {
            proof {
                lemma_entries_view_index(self.mappings@);
            }
            let hit = {
                let entry = &self.mappings[i];
                entry.0 == *location
            };
            if hit {
                proof {
                    lemma_entries_view_index(self.mappings@);
                    assert(self.deep_view()[i as int].0 == location@);
                    lemma_compound_get_hit(self.deep_view(), location@, i as int);
                }
                return Some(&self.mappings[i].1);
            }
            i = i + 1;
        }
        proof {
            lemma_entries_view_index(self.mappings@);
            lemma_compound_get_miss(self.deep_view(), location@);
        }
        None
    }

    /// The keys of the compound, in entry order.
    pub fn tags(&self) -> (r: Vec<String>)
        ensures
            r.deep_view() == compound_keys(self.deep_view()),
    {
        let n = self.mappings.len();
        let mut out: Vec<String> = Vec::new();
        let mut i: usize = 0;
        while i < n
            invariant
                i <= n,
                n == self.mappings@.len(),
                out@.len() == i,
                forall|j: int| 0 <= j < i ==> (#[trigger] out@[j])@ == self.mappings@[j].0@,
            decreases n - i,
        {
            out.push(self.mappings[i].0.clone());
            i = i + 1;
        }
        proof {
            lemma_entries_view_index(self.mappings@);
            assert forall|j: int| 0 <= j < n implies out.deep_view()[j] == compound_keys(
                self.deep_view(),
            )[j] by {
                assert(out.deep_view()[j] == out@[j]@);
                assert(compound_keys(self.deep_view())[j] == self.deep_view()[j].0);
            }
            assert(out.deep_view() =~= compound_keys(self.deep_view()));
        }
        out
    }
}

/// What inserting a key into a compound model yields: replacement in place,
/// or appending a new entry.
pub open spec fn spec_compound_put(
    entries: Seq<(Seq<char>, TagV)>,
    key: Seq<char>,
    value: TagV,
) -> Seq<(Seq<char>, TagV)> {
    if exists|i: int| 0 <= i < entries.len() && (#[trigger] entries[i]).0 == key {
        let i = choose|i: int| 0 <= i < entries.len() && (#[trigger] entries[i]).0 == key;
        entries.update(i, (key, value))
    } else {
        entries.push((key, value))
    }
}

/// What looking a key up in a compound model yields.
pub open spec fn spec_compound_get(entries: Seq<(Seq<char>, TagV)>, key: Seq<char>) -> Option<
    TagV,
> {
    if exists|i: int| 0 <= i < entries.len() && (#[trigger] entries[i]).0 == key {
        let i = choose|i: int| 0 <= i < entries.len() && (#[trigger] entries[i]).0 == key;
        Some(entries[i].1)
    } else {
        None
    }
}

proof fn lemma_compound_put_replace(
    pre: Seq<(Seq<char>, TagV)>,
    post: Seq<(Seq<char>, TagV)>,
    key: Seq<char>,
    value: TagV,
    i: int,
)
    requires
        compound_keys_unique(pre),
        0 <= i < pre.len(),
        pre[i].0 == key,
        forall|j: int| 0 <= j < i ==> pre[j].0 != key,
        post =~= pre.update(i, (key, value)),
    ensures
        post == spec_compound_put(pre, key, value),
        compound_keys_unique(post),
{
    let w = choose|k: int| 0 <= k < pre.len() && (#[trigger] pre[k]).0 == key;
    assert(w == i);
}

proof fn lemma_compound_put_append(
    pre: Seq<(Seq<char>, TagV)>,
    post: Seq<(Seq<char>, TagV)>,
    key: Seq<char>,
    value: TagV,
)
    requires
        compound_keys_unique(pre),
        forall|j: int| 0 <= j < pre.len() ==> (#[trigger] pre[j]).0 != key,
        post =~= pre.push((key, value)),
    ensures
        post == spec_compound_put(pre, key, value),
        compound_keys_unique(post),
{
}

proof fn lemma_compound_get_hit(entries: Seq<(Seq<char>, TagV)>, key: Seq<char>, i: int)
    requires
        compound_keys_unique(entries),
        0 <= i < entries.len(),
        entries[i].0 == key,
    ensures
        spec_compound_get(entries, key) == Some(entries[i].1),
{
    let w = choose|k: int| 0 <= k < entries.len() && (#[trigger] entries[k]).0 == key;
    assert(w == i);
}

proof fn lemma_compound_get_miss(entries: Seq<(Seq<char>, TagV)>, key: Seq<char>)
    requires
        forall|j: int| 0 <= j < entries.len() ==> (#[trigger] entries[j]).0 != key,
    ensures
        spec_compound_get(entries, key) is None,
{
}


/// The wire image of a string: a two-byte big-endian byte count, then the
/// modified UTF-8 bytes.
pub open spec fn nbt_str_wire(s: Seq<char>) -> Seq<u8> {
    be_bytes((java_cesu8(s).len() as u16) as nat, 2) + java_cesu8(s)
}

/// Whether a string's modified UTF-8 image fits the two-byte length field.
pub open spec fn str_writable(s: Seq<char>) -> bool {
    java_cesu8(s).len() <= 0xffff
}

/// The big-endian image of a signed 32-bit value.
pub open spec fn spec_i32_be(v: i32) -> Seq<u8> {
    be_bytes((v as u32) as nat, 4)
}

/// The concatenated wire images of a sequence of tags.
pub open spec fn tags_wire(items: Seq<TagV>) -> Seq<u8>
    decreases items, 0int,
{
    if items.len() == 0 {
        Seq::empty()
    } else {
        tag_wire(items[0]) + tags_wire(items.skip(1))
    }
}

/// The concatenated wire images of a compound body's entries: for each entry
/// a type identifier, the key string and the value payload.
pub open spec fn compound_entries_wire(entries: Seq<(Seq<char>, TagV)>) -> Seq<u8>
    decreases entries, 0int,
{
    if entries.len() == 0 {
        Seq::empty()
    } else {
        seq![spec_tag_id(entries[0].1)] + nbt_str_wire(entries[0].0) + tag_wire(entries[0].1)
            + compound_entries_wire(entries.skip(1))
    }
}

/// The wire image of a compound body: its entries, then a terminating end
/// marker.
pub open spec fn compound_wire(entries: Seq<(Seq<char>, TagV)>) -> Seq<u8>
    decreases entries, 1int,
{
    compound_entries_wire(entries) + seq![0u8]
}

/// The concatenated big-endian images of 32-bit values.
pub open spec fn ints_wire(vs: Seq<i32>) -> Seq<u8>
    decreases vs.len(),
{
    if vs.len() == 0 {
        Seq::empty()
    } else {
        spec_i32_be(vs[0]) + ints_wire(vs.skip(1))
    }
}

/// The concatenated big-endian images of 64-bit values.
pub open spec fn longs_wire(vs: Seq<i64>) -> Seq<u8>
    decreases vs.len(),
{
    if vs.len() == 0 {
        Seq::empty()
    } else {
        be_bytes((vs[0] as u64) as nat, 8) + longs_wire(vs.skip(1))
    }
}

/// The exact payload bytes of a tag. The type identifier byte is not part of
/// the payload: it stands before it, written by whoever owns the context.
pub open spec fn tag_wire(t: TagV) -> Seq<u8>
    decreases t, 1int,
{
    match t {
        TagV::End => Seq::empty(),
        TagV::Byte(v) => seq![v],
        TagV::Short(v) => be_bytes((v as u16) as nat, 2),
        TagV::Int(v) => spec_i32_be(v),
        TagV::Long(v) => be_bytes((v as u64) as nat, 8),
        TagV::Float(v) => be_bytes(v as nat, 4),
        TagV::Double(v) => be_bytes(v as nat, 8),
        TagV::Bytes(b) => spec_i32_be(b.len() as i32) + b,
        TagV::Str(s) => nbt_str_wire(s),
        TagV::List(id, items) => seq![id] + spec_i32_be(items.len() as i32) + tags_wire(items),
        TagV::Compound(entries) => compound_wire(entries),
        TagV::Ints(vs) => spec_i32_be(vs.len() as i32) + ints_wire(vs),
        TagV::Longs(vs) => spec_i32_be(vs.len() as i32) + longs_wire(vs),
    }
}

/// Whether every tag of a sequence can be written.
pub open spec fn tags_writable(items: Seq<TagV>) -> bool
    decreases items, 0int,
{
    if items.len() == 0 {
        true
    } else {
        tag_writable(items[0]) && tags_writable(items.skip(1))
    }
}

/// Whether every entry of a compound body can be written: the key fits the
/// length field, and the value is a writable non-end tag.
pub open spec fn compound_writable(entries: Seq<(Seq<char>, TagV)>) -> bool
    decreases entries, 0int,
{
    if entries.len() == 0 {
        true
    } else {
        str_writable(entries[0].0) && entries[0].1 != TagV::End && tag_writable(entries[0].1)
            && compound_writable(entries.skip(1))
    }
}

/// Whether a tag can be written: strings fit their length fields, and array,
/// list and compound lengths fit a signed 32-bit count.
pub open spec fn tag_writable(t: TagV) -> bool
    decreases t, 1int,
{
    match t {
        TagV::Bytes(b) => b.len() <= 0x7fff_ffff,
        TagV::Str(s) => str_writable(s),
        TagV::List(id, items) => items.len() <= 0x7fff_ffff && tags_writable(items),
        TagV::Compound(entries) => compound_writable(entries),
        TagV::Ints(vs) => vs.len() <= 0x7fff_ffff,
        TagV::Longs(vs) => vs.len() <= 0x7fff_ffff,
        _ => true,
    }
}

/// The nesting height of a tag: how many list or compound levels stand on
/// top of each other.
pub open spec fn tag_height(t: TagV) -> nat
    decreases t, 1int,
{
    match t {
        TagV::List(id, items) => 1 + tags_height(items),
        TagV::Compound(entries) => 1 + entries_height(entries),
        _ => 0,
    }
}

/// The largest height among a sequence of tags.
pub open spec fn tags_height(items: Seq<TagV>) -> nat
    decreases items, 0int,
{
    if items.len() == 0 {
        0
    } else {
        let h0 = tag_height(items[0]);
        let hr = tags_height(items.skip(1));
        if h0 >= hr {
            h0
        } else {
            hr
        }
    }
}

/// The largest height among a compound body's values.
pub open spec fn entries_height(entries: Seq<(Seq<char>, TagV)>) -> nat
    decreases entries, 0int,
{
    if entries.len() == 0 {
        0
    } else {
        let h0 = tag_height(entries[0].1);
        let hr = entries_height(entries.skip(1));
        if h0 >= hr {
            h0
        } else {
            hr
        }
    }
}

/// Whether every tag of a sequence is valid and carries the given type
/// identifier.
pub open spec fn tags_valid(items: Seq<TagV>, id: u8) -> bool
    decreases items, 0int,
{
    if items.len() == 0 {
        true
    } else {
        spec_tag_id(items[0]) == id && tag_valid(items[0]) && tags_valid(items.skip(1), id)
    }
}

/// Whether every entry of a compound body is valid.
pub open spec fn entries_valid(entries: Seq<(Seq<char>, TagV)>) -> bool
    decreases entries, 0int,
{
    if entries.len() == 0 {
        true
    } else {
        str_writable(entries[0].0) && entries[0].1 != TagV::End && tag_valid(entries[0].1)
            && entries_valid(entries.skip(1))
    }
}

/// Whether a tag round-trips: it is writable, every list carries elements of
/// its declared element type (and a nonzero element type when nonempty), and
/// every compound holds each key once.
pub open spec fn tag_valid(t: TagV) -> bool
    decreases t, 1int,
{
    match t {
        TagV::Bytes(b) => b.len() <= 0x7fff_ffff,
        TagV::Str(s) => str_writable(s),
        TagV::List(id, items) => items.len() <= 0x7fff_ffff && (items.len() > 0 ==> id != 0)
            && tags_valid(items, id),
        TagV::Compound(entries) => compound_keys_unique(entries) && entries_valid(entries),
        TagV::Ints(vs) => vs.len() <= 0x7fff_ffff,
        TagV::Longs(vs) => vs.len() <= 0x7fff_ffff,
        _ => true,
    }
}

/// Whether decoding inverts encoding for a string: the fact the encoder
/// certifies for every string it writes.
pub open spec fn str_invertible(s: Seq<char>) -> bool {
    java_cesu8_decode(java_cesu8(s)) == Some(s)
}

/// Whether decoding inverts encoding for every string in a tag sequence.
pub open spec fn tags_invertible(items: Seq<TagV>) -> bool
    decreases items, 0int,
{
    if items.len() == 0 {
        true
    } else {
        tag_invertible(items[0]) && tags_invertible(items.skip(1))
    }
}

/// Whether decoding inverts encoding for every string in a compound body.
pub open spec fn entries_invertible(entries: Seq<(Seq<char>, TagV)>) -> bool
    decreases entries, 0int,
{
    if entries.len() == 0 {
        true
    } else {
        str_invertible(entries[0].0) && tag_invertible(entries[0].1) && entries_invertible(
            entries.skip(1),
        )
    }
}

/// Whether decoding inverts encoding for every string in a tag.
pub open spec fn tag_invertible(t: TagV) -> bool
    decreases t, 1int,
{
    match t {
        TagV::Str(s) => str_invertible(s),
        TagV::List(id, items) => tags_invertible(items),
        TagV::Compound(entries) => entries_invertible(entries),
        _ => true,
    }
}

/// The outcome of scanning one string from a byte sequence.
pub enum StrParse {
    /// The string and the bytes consumed.
    SDone { s: Seq<char>, used: int },
    /// The bytes were rejected, with the failure kind.
    SBad { kind: ErrorType },
}

/// The exact parse of one length-prefixed modified UTF-8 string.
pub open spec fn parse_nbt_str(b: Seq<u8>) -> StrParse {
    if b.len() < 2 {
        StrParse::SBad { kind: ErrorType::EOF }
    } else {
        let n = be_value(b.take(2)) as int;
        if b.len() - 2 < n {
            StrParse::SBad { kind: ErrorType::EOF }
        } else {
            match java_cesu8_decode(b.skip(2).take(n)) {
                Some(s) => StrParse::SDone { s, used: 2 + n },
                None => StrParse::SBad { kind: ErrorType::InvalidText },
            }
        }
    }
}

/// The values of `count` consecutive big-endian 32-bit integers.
pub open spec fn ints_of(b: Seq<u8>, count: int) -> Seq<i32> {
    Seq::new(
        if count >= 0 {
            count as nat
        } else {
            0
        },
        |i: int| (be_value(b.subrange(4 * i, 4 * i + 4)) as u32) as i32,
    )
}

/// The values of `count` consecutive big-endian 64-bit integers.
pub open spec fn longs_of(b: Seq<u8>, count: int) -> Seq<i64> {
    Seq::new(
        if count >= 0 {
            count as nat
        } else {
            0
        },
        |i: int| (be_value(b.subrange(8 * i, 8 * i + 8)) as u64) as i64,
    )
}

/// The outcome of scanning one tag payload.
pub enum NbtParse {
    /// The tag, the bytes consumed, and the accounted decode cost.
    Done { t: TagV, used: int, cost: nat },
    /// The bytes were rejected, with the failure kind.
    Bad { kind: ErrorType },
}

/// The outcome of scanning a run of list elements.
pub enum ElemsParse {
    /// The elements, the bytes consumed, and the accounted decode cost.
    EDone { items: Seq<TagV>, used: int, cost: nat },
    /// The bytes were rejected, with the failure kind.
    EBad { kind: ErrorType },
}

/// The outcome of scanning a compound body.
pub enum CompParse {
    /// The entries, the bytes consumed, and the accounted decode cost.
    CDone { entries: Seq<(Seq<char>, TagV)>, used: int, cost: nat },
    /// The bytes were rejected, with the failure kind.
    CBad { kind: ErrorType },
}

/// The exact parse of one tag payload of type `id` at nesting depth `depth`,
/// together with the decode cost the accounter is charged for it.
pub open spec fn parse_tag(id: u8, b: Seq<u8>, depth: int) -> NbtParse
    decreases b.len(), 1int, 0int,
{
    if id == 0 {
        NbtParse::Done { t: TagV::End, used: 0, cost: 64 }
    } else if id == 1 {
        if b.len() < 1 {
            NbtParse::Bad { kind: ErrorType::EOF }
        } else {
            NbtParse::Done { t: TagV::Byte(b[0]), used: 1, cost: 72 }
        }
    } else if id == 2 {
        if b.len() < 2 {
            NbtParse::Bad { kind: ErrorType::EOF }
        } else {
            NbtParse::Done {
                t: TagV::Short((be_value(b.take(2)) as u16) as i16),
                used: 2,
                cost: 80,
            }
        }
    } else if id == 3 {
        if b.len() < 4 {
            NbtParse::Bad { kind: ErrorType::EOF }
        } else {
            NbtParse::Done { t: TagV::Int((be_value(b.take(4)) as u32) as i32), used: 4, cost: 96 }
        }
    } else if id == 4 {
        if b.len() < 8 {
            NbtParse::Bad { kind: ErrorType::EOF }
        } else {
            NbtParse::Done {
                t: TagV::Long((be_value(b.take(8)) as u64) as i64),
                used: 8,
                cost: 128,
            }
        }
    } else if id == 5 {
        if b.len() < 4 {
            NbtParse::Bad { kind: ErrorType::EOF }
        } else {
            NbtParse::Done { t: TagV::Float(be_value(b.take(4)) as u32), used: 4, cost: 96 }
        }
    } else if id == 6 {
        if b.len() < 8 {
            NbtParse::Bad { kind: ErrorType::EOF }
        } else {
            NbtParse::Done { t: TagV::Double(be_value(b.take(8)) as u64), used: 8, cost: 128 }
        }
    } else if id == 7 {
        if b.len() < 4 {
            NbtParse::Bad { kind: ErrorType::EOF }
        } else {
            let n = (be_value(b.take(4)) as u32) as i32;
            if n < 0 {
                NbtParse::Bad { kind: ErrorType::NumericOverflow }
            } else if b.len() - 4 < n {
                NbtParse::Bad { kind: ErrorType::EOF }
            } else {
                NbtParse::Done {
                    t: TagV::Bytes(b.skip(4).take(n as int)),
                    used: 4 + n,
                    cost: (192 + 8 * n) as nat,
                }
            }
        }
    } else if id == 8 {
        match parse_nbt_str(b) {
            StrParse::SDone { s, used } => NbtParse::Done {
                t: TagV::Str(s),
                used,
                cost: (288 + 16 * encode_utf8(s).len()) as nat,
            },
            StrParse::SBad { kind } => NbtParse::Bad { kind },
        }
    } else if id == 9 {
        if depth >= 512 {
            NbtParse::Bad { kind: ErrorType::DepthExceeded }
        } else if b.len() < 5 {
            NbtParse::Bad { kind: ErrorType::EOF }
        } else {
            let elem = b[0];
            let n = (be_value(b.skip(1).take(4)) as u32) as i32;
            if elem == 0 && n > 0 {
                NbtParse::Bad { kind: ErrorType::MissingListType }
            } else if n < 0 {
                NbtParse::Bad { kind: ErrorType::NumericOverflow }
            } else {
                match parse_elems(elem, b.skip(5), n as int, depth + 1) {
                    ElemsParse::EDone { items, used, cost } => NbtParse::Done {
                        t: TagV::List(elem, items),
                        used: 5 + used,
                        cost: (296 + 32 * n + cost) as nat,
                    },
                    ElemsParse::EBad { kind } => NbtParse::Bad { kind },
                }
            }
        }
    } else if id == 10 {
        if depth >= 512 {
            NbtParse::Bad { kind: ErrorType::DepthExceeded }
        } else {
            match parse_compound(b, depth + 1, Seq::empty()) {
                CompParse::CDone { entries, used, cost } => NbtParse::Done {
                    t: TagV::Compound(entries),
                    used,
                    cost: (384 + cost) as nat,
                },
                CompParse::CBad { kind } => NbtParse::Bad { kind },
            }
        }
    } else if id == 11 {
        if b.len() < 4 {
            NbtParse::Bad { kind: ErrorType::EOF }
        } else {
            let n = (be_value(b.take(4)) as u32) as i32;
            if n < 0 {
                NbtParse::Bad { kind: ErrorType::NumericOverflow }
            } else if b.len() - 4 < 4 * n {
                NbtParse::Bad { kind: ErrorType::EOF }
            } else {
                NbtParse::Done {
                    t: TagV::Ints(ints_of(b.skip(4), n as int)),
                    used: 4 + 4 * n,
                    cost: (192 + 32 * n) as nat,
                }
            }
        }
    } else if id == 12 {
        if b.len() < 4 {
            NbtParse::Bad { kind: ErrorType::EOF }
        } else {
            let n = (be_value(b.take(4)) as u32) as i32;
            if n < 0 {
                NbtParse::Bad { kind: ErrorType::NumericOverflow }
            } else if b.len() - 4 < 8 * n {
                NbtParse::Bad { kind: ErrorType::EOF }
            } else {
                NbtParse::Done {
                    t: TagV::Longs(longs_of(b.skip(4), n as int)),
                    used: 4 + 8 * n,
                    cost: (192 + 64 * n) as nat,
                }
            }
        }
    } else {
        NbtParse::Bad { kind: ErrorType::UnknownTagId }
    }
}

/// The exact parse of `count` consecutive list elements of type `elem`.
pub open spec fn parse_elems(elem: u8, b: Seq<u8>, count: int, depth: int) -> ElemsParse
    decreases b.len(), 2int, count,
{
    if count <= 0 {
        ElemsParse::EDone { items: Seq::empty(), used: 0, cost: 0 }
    } else {
        match parse_tag(elem, b, depth) {
            NbtParse::Bad { kind } => ElemsParse::EBad { kind },
            NbtParse::Done { t, used, cost } => {
                if used < 0 || used > b.len() {
                    ElemsParse::EBad { kind: ErrorType::Generic }
                } else {
                    match parse_elems(elem, b.skip(used), count - 1, depth) {
                        ElemsParse::EBad { kind } => ElemsParse::EBad { kind },
                        ElemsParse::EDone { items, used: u2, cost: c2 } => ElemsParse::EDone {
                            items: seq![t] + items,
                            used: used + u2,
                            cost: (cost + c2) as nat,
                        },
                    }
                }
            },
        }
    }
}

/// The exact parse of a compound body: entries are read until an end marker,
/// inserting each into the accumulated mapping. Re-inserting an existing key
/// replaces its value in place and charges the duplicate-entry cost.
pub open spec fn parse_compound(b: Seq<u8>, depth: int, acc: Seq<(Seq<char>, TagV)>) -> CompParse
    decreases b.len(), 0int, 0int,
{
    if b.len() < 1 {
        CompParse::CBad { kind: ErrorType::EOF }
    } else if b[0] == 0 {
        CompParse::CDone { entries: acc, used: 1, cost: 0 }
    } else {
        let eid = b[0];
        match parse_nbt_str(b.skip(1)) {
            StrParse::SBad { kind } => CompParse::CBad { kind },
            StrParse::SDone { s: key, used: kused } => {
                if kused < 2 || 1 + kused > b.len() {
                    CompParse::CBad { kind: ErrorType::Generic }
                } else {
                    match parse_tag(eid, b.skip(1 + kused), depth) {
                        NbtParse::Bad { kind } => CompParse::CBad { kind },
                        NbtParse::Done { t, used: vused, cost: vcost } => {
                            if vused < 0 || 1 + kused + vused > b.len() {
                                CompParse::CBad { kind: ErrorType::Generic }
                            } else {
                                let dup = exists|i: int|
                                    0 <= i < acc.len() && (#[trigger] acc[i]).0 == key;
                                let entry_cost = (224 + 16 * encode_utf8(key).len() + vcost + (
                                if dup {
                                    288nat
                                } else {
                                    0nat
                                })) as nat;
                                match parse_compound(
                                    b.skip(1 + kused + vused),
                                    depth,
                                    spec_compound_put(acc, key, t),
                                ) {
                                    CompParse::CBad { kind } => CompParse::CBad { kind },
                                    CompParse::CDone { entries, used, cost } => CompParse::CDone {
                                        entries,
                                        used: 1 + kused + vused + used,
                                        cost: (entry_cost + cost) as nat,
                                    },
                                }
                            }
                        },
                    }
                }
            },
        }
    }
}

/// Transient decode-time state: a running cost tally and a ceiling. A
/// ceiling of zero disables accounting.
pub struct NbtAccounter {
    limit: u64,
    current: u64,
}

impl NbtAccounter {
    /// The ceiling this accounter was made with; zero disables accounting.
    pub closed spec fn limit(self) -> u64 {
        self.limit
    }

    /// The cost accounted so far.
    pub closed spec fn current(self) -> u64 {
        self.current
    }

    /// Creates a fresh accounter with the given ceiling.
    pub fn new(limit: u64) -> (r: Self)
        ensures
            r.limit() == limit,
            r.current() == 0,
    {
        NbtAccounter { limit, current: 0 }
    }

    /// Whether accounting is in force: the ceiling is nonzero.
    pub fn is_enabled(&self) -> (r: bool)
        ensures
            r <==> self.limit() != 0,
    {
        self.limit != 0
    }

    /// Charges a cost to the tally. With a zero ceiling nothing is charged;
    /// otherwise exceeding the ceiling or overflowing the tally fails.
    pub fn account_bytes(&mut self, bytes: u64) -> (res: TransportResult<()>)
        ensures
            final(self).limit() == old(self).limit(),
            old(self).limit() == 0 ==> res is Ok && final(self).current() == old(self).current(),
            old(self).limit() != 0 && old(self).current() + bytes <= old(self).limit() ==> res
                is Ok && final(self).current() == old(self).current() + bytes,
            old(self).limit() != 0 && old(self).current() + bytes > old(self).limit() ==> (res
                matches Err(e) && final(self).current() == old(self).current() && (old(self).current() + bytes <= u64::MAX ==> e.error_type == ErrorType::OversizedTag) && (old(self).current() + bytes > u64::MAX ==> e.error_type == ErrorType::NumericOverflow)),
    {
        if self.limit == 0 {
            return Ok(());
        }
        match self.current.checked_add(bytes) {
            Some(next) => {
                if next > self.limit {
                    Err(TransportError::measured(next, self.limit, ErrorType::OversizedTag))
                } else {
                    self.current = next;
                    Ok(())
                }
            },
            None => Err(
                TransportError::measured(self.current, u64::MAX, ErrorType::NumericOverflow),
            ),
        }
    }
}

/// Reads one length-prefixed modified UTF-8 string.
fn read_nbt_string(r: &mut ByteReader) -> (res: TransportResult<String>)
    requires
        old(r).wf(),
    ensures
        final(r).wf(),
        match parse_nbt_str(old(r)@) {
            StrParse::SDone { s, used } => res matches Ok(v) && v@ == s && final(r)@ == old(r)@.skip(used),
            StrParse::SBad { kind } => res matches Err(e) && e.error_type == kind,
        },
{
    proof {
        lemma_pow256_values();
        if old(r)@.len() >= 2 {
            lemma_be_value_bound(old(r)@.take(2));
        }
    }
    let n = read_be(r, 2)?;
    let bytes = r.read_exact(n as usize)?;
    proof {
        assert(old(r)@.skip(2).take(n as int) =~= old(r)@.skip(2).take(n as int));
        assert(r@ =~= old(r)@.skip(2 + n as int));
        assert(bytes@ =~= old(r)@.skip(2).take(n as int));
    }
    match from_java_cesu8(&bytes) {
        Some(s) => Ok(s),
        None => Err(TransportError::error(ErrorType::InvalidText)),
    }
}

/// Appends one length-prefixed modified UTF-8 string.
fn write_nbt_string(s: &String, out: &mut Vec<u8>) -> (res: TransportResult<()>)
    ensures
        res is Ok <==> str_writable(s@),
        res is Ok ==> final(out)@ == old(out)@ + nbt_str_wire(s@),
        str_invertible(s@),
{
    let bytes = to_java_cesu8(s);
    if bytes.len() > 0xffff {
        return Err(TransportError::error(ErrorType::BoundExceeded));
    }
    proof {
        lemma_pow256_values();
    }
    write_be(out, bytes.len() as u64, 2);
    crate::packet::string::append_bytes(out, &bytes);
    proof {
        assert((bytes@.len() as u16) as nat == bytes@.len());
        assert(out@ =~= old(out)@ + nbt_str_wire(s@));
    }
    Ok(())
}


/// A string parse consumes at least its length field and at most the whole
/// sequence.
pub proof fn lemma_parse_str_used(b: Seq<u8>)
    ensures
        parse_nbt_str(b) matches StrParse::SDone { s, used } ==> 2 <= used <= b.len(),
{
}

/// A tag parse never claims more bytes than it was given.
pub proof fn lemma_parse_tag_used(id: u8, b: Seq<u8>, depth: int)
    ensures
        parse_tag(id, b, depth) matches NbtParse::Done { t, used, cost } ==> 0 <= used <= b.len(),
    decreases b.len(), 1int, 0int,
{
    if id == 8 {
        lemma_parse_str_used(b);
    } else if id == 9 {
        if depth < 512 && b.len() >= 5 {
            let elem = b[0];
            let n = (be_value(b.skip(1).take(4)) as u32) as i32;
            if !(elem == 0 && n > 0) && n >= 0 {
                lemma_parse_elems_used(elem, b.skip(5), n as int, depth + 1);
            }
        }
    } else if id == 10 {
        if depth < 512 {
            lemma_parse_compound_used(b, depth + 1, Seq::empty());
        }
    }
}

/// A list-element run parse never claims more bytes than it was given.
pub proof fn lemma_parse_elems_used(elem: u8, b: Seq<u8>, count: int, depth: int)
    ensures
        parse_elems(elem, b, count, depth) matches ElemsParse::EDone { items, used, cost } ==> 0
            <= used <= b.len() && items.len() == (
        if count >= 0 {
            count
        } else {
            0
        }),
    decreases b.len(), 2int, count,
{
    if count > 0 {
        lemma_parse_tag_used(elem, b, depth);
        if let NbtParse::Done { t, used, cost } = parse_tag(elem, b, depth) {
            if 0 <= used <= b.len() {
                lemma_parse_elems_used(elem, b.skip(used), count - 1, depth);
            }
        }
    }
}

/// A compound body parse consumes at least its end marker and at most the
/// whole sequence.
pub proof fn lemma_parse_compound_used(b: Seq<u8>, depth: int, acc: Seq<(Seq<char>, TagV)>)
    ensures
        parse_compound(b, depth, acc) matches CompParse::CDone { entries, used, cost } ==> 1
            <= used <= b.len(),
    decreases b.len(), 0int, 0int,
{
    if b.len() >= 1 && b[0] != 0 {
        let eid = b[0];
        lemma_parse_str_used(b.skip(1));
        if let StrParse::SDone { s: key, used: kused } = parse_nbt_str(b.skip(1)) {
            if 2 <= kused && 1 + kused <= b.len() {
                lemma_parse_tag_used(eid, b.skip(1 + kused), depth);
                if let NbtParse::Done { t, used: vused, cost } = parse_tag(
                    eid,
                    b.skip(1 + kused),
                    depth,
                ) {
                    if 0 <= vused && 1 + kused + vused <= b.len() {
                        lemma_parse_compound_used(
                            b.skip(1 + kused + vused),
                            depth,
                            spec_compound_put(acc, key, t),
                        );
                    }
                }
            }
        }
    }
}

/// The accounting outcome clauses shared by the tag loaders: with a zero
/// ceiling the parse outcome is reproduced exactly; with a nonzero ceiling a
/// tree whose cost fits the ceiling decodes and is charged exactly, and one
/// whose cost exceeds it fails, with the oversized-tag error whenever the
/// arithmetic stays in range.
pub open spec fn load_post<A>(
    outcome: NbtParse,
    limit: u64,
    cur0: u64,
    cur1: u64,
    pre: Seq<u8>,
    post: Seq<u8>,
    res: TransportResult<A>,
    view: TagV,
) -> bool {
    match outcome {
        NbtParse::Done { t, used, cost } => {
            &&& (limit == 0 ==> (res is Ok && view == t && post == pre.skip(used) && cur1 == cur0))
            &&& (limit != 0 && cur0 + cost <= limit ==> (res is Ok && view == t && post
                == pre.skip(used) && cur1 == cur0 + cost))
            &&& (limit != 0 && cur0 + cost > limit ==> (res matches Err(e) && (limit
                < 0x8000_0000_0000_0000 && cur0 + cost <= u64::MAX ==> e.error_type
                == ErrorType::OversizedTag)))
        },
        NbtParse::Bad { kind } => {
            &&& (limit == 0 ==> (res matches Err(e) && e.error_type == kind))
            &&& res is Err
        },
    }
}

/// Reads `n` consecutive list elements of type `elem`.
#[verifier::rlimit(100)]
fn load_elems(r: &mut ByteReader, elem: u8, n: i32, depth: i32, accounter: &mut NbtAccounter) -> (
    res: TransportResult<Vec<Tag>>)
    requires
        old(r).wf(),
        0 <= depth,
        n >= 0,
        old(accounter).limit() != 0 ==> old(accounter).current() <= old(accounter).limit(),
    ensures
        final(r).wf(),
        final(accounter).limit() == old(accounter).limit(),
        old(accounter).limit() != 0 ==> final(accounter).current() <= old(accounter).limit(),
        ({
            let outcome = (match parse_elems(elem, old(r)@, n as int, depth as int) {
                ElemsParse::EDone { items, used, cost } => NbtParse::Done {
                    t: TagV::List(elem, items),
                    used,
                    cost,
                },
                ElemsParse::EBad { kind } => NbtParse::Bad { kind },
            });
            load_post(
                outcome,
                old(accounter).limit(),
                old(accounter).current(),
                final(accounter).current(),
                old(r)@,
                final(r)@,
                res,
                (match res {
                    Ok(v) => TagV::List(elem, tags_view(v@)),
                    Err(_) => TagV::End,
                }),
            )
        }),
    decreases old(r)@.len(), 2int, 0int,
{
    let ghost b5 = old(r)@;
    let ghost limit0 = old(accounter).limit();
    let ghost acct1 = old(accounter).current();
    let ghost spent0: nat = 0;
    let ghost mut spent: nat = spent0;
    proof {
        assert(b5.skip(0) =~= b5);
    }
    let mut items: Vec<Tag> = Vec::new();
    let mut k: i32 = 0;
    while k < n
        invariant
            b5 == old(r)@,
            limit0 == old(accounter).limit(),
            acct1 == old(accounter).current(),
            limit0 != 0 ==> acct1 <= limit0,
            0 <= depth,
            r.wf(),
            0 <= k <= n,
            r@.len() <= b5.len(),
            r@ == b5.skip(b5.len() - r@.len()),
            items@.len() == k as int,
            accounter.limit() == limit0,
            limit0 == 0 ==> accounter.current() == acct1,
            limit0 != 0 ==> accounter.current() == acct1 + spent && acct1 + spent <= limit0,
            match parse_elems(elem, r@, n - k as int, depth as int) {
                ElemsParse::EDone { items: ms2, used: u2, cost: c2 } => parse_elems(
                    elem,
                    b5,
                    n as int,
                    depth as int,
                ) == (ElemsParse::EDone {
                    items: tags_view(items@) + ms2,
                    used: b5.len() - r@.len() + u2,
                    cost: (spent + c2) as nat,
                }),
                ElemsParse::EBad { kind } => parse_elems(elem, b5, n as int, depth as int)
                    == (ElemsParse::EBad { kind }),
            },
        decreases n - k,
    {
        let ghost pre = r@;
        let ghost cur_pre = accounter.current();
        proof {
            lemma_parse_tag_used(elem, pre, depth as int);
        }
        let child = match load_tag(r, elem, depth, accounter) {
            Ok(c) => c,
            Err(e) => {
                proof {
                    match parse_tag(elem, pre, depth as int) {
                        NbtParse::Bad { kind } => {
                            assert(parse_elems(elem, pre, n - k as int, depth as int)
                                == (ElemsParse::EBad { kind }));
                        },
                        NbtParse::Done { t, used, cost } => {
                            assert(0 <= used <= pre.len());
                            assert(limit0 != 0);
                            assert(cur_pre == acct1 + spent);
                            assert(cur_pre + cost > limit0);
                            match parse_elems(elem, pre.skip(used), n - k as int - 1, depth as int) {
                                ElemsParse::EBad { kind } => {
                                    assert(parse_elems(elem, pre, n - k as int, depth as int)
                                        == (ElemsParse::EBad { kind }));
                                },
                                ElemsParse::EDone { items: msr, used: ur, cost: cr } => {
                                    assert(parse_elems(elem, pre, n - k as int, depth as int)
                                        == (ElemsParse::EDone {
                                        items: seq![t] + msr,
                                        used: used + ur,
                                        cost: (cost + cr) as nat,
                                    }));
                                    assert(acct1 + spent + cost > limit0);
                                    assert(acct1 + (spent + ((cost + cr) as nat)) >= acct1 + spent
                                        + cost);
                                },
                            }
                        },
                    }
                }
                return Err(e);
            },
        };
        proof {
            if let NbtParse::Done { t, used, cost } = parse_tag(elem, pre, depth as int) {
                assert(b5.skip(b5.len() - pre.len()).skip(used) =~= b5.skip(
                    b5.len() - pre.len() + used,
                ));
                spent = (spent + cost) as nat;
            }
        }
        let ghost dv = tags_view(items@);
        let ghost iv = items@;
        items.push(child);
        proof {
            assert(items@.drop_last() =~= iv);
            assert(tags_view(items@) =~= dv.push(child.deep_view()));
            if let NbtParse::Done { t, used, cost } = parse_tag(elem, pre, depth as int) {
                if let ElemsParse::EDone { items: ms2, used: u2, cost: c2 } = parse_elems(
                    elem,
                    r@,
                    n - k as int - 1,
                    depth as int,
                ) {
                    assert(dv.push(t) + ms2 =~= dv + (seq![t] + ms2));
                }
            }
        }
        k = k + 1;
    }
    proof {
        if let ElemsParse::EDone { items: ms2, used: u2, cost: c2 } = parse_elems(
            elem,
            r@,
            0,
            depth as int,
        ) {
            assert(tags_view(items@) + ms2 =~= tags_view(items@));
        }
    }
    Ok(items)
}

/// Reads one compound entry after its nonzero type identifier byte: the key
/// string, the key charge, the value payload, and the map insertion with the
/// duplicate-entry charge when the key recurs.
#[verifier::rlimit(100)]
fn load_compound_entry(
    r: &mut ByteReader,
    eid: u8,
    depth: i32,
    accounter: &mut NbtAccounter,
    c: &mut CompoundTag,
) -> (res: TransportResult<()>)
    requires
        old(r).wf(),
        0 <= depth,
        eid != 0,
        old(c).wf(),
        old(accounter).limit() != 0 ==> old(accounter).current() <= old(accounter).limit(),
    ensures
        final(r).wf(),
        final(c).wf(),
        final(accounter).limit() == old(accounter).limit(),
        old(accounter).limit() != 0 ==> final(accounter).current() <= old(accounter).limit(),
        ({
            let limit = old(accounter).limit();
            let cur0 = old(accounter).current();
            match parse_nbt_str(old(r)@) {
                StrParse::SBad { kind } => res matches Err(e) && (limit == 0 ==> e.error_type
                    == kind),
                StrParse::SDone { s: key, used: kused } => match parse_tag(
                    eid,
                    old(r)@.skip(kused),
                    depth as int,
                ) {
                    NbtParse::Bad { kind } => res matches Err(e) && (limit == 0 ==> e.error_type
                        == kind),
                    NbtParse::Done { t, used: vused, cost: vcost } => {
                        let dup = exists|i: int|
                            0 <= i < old(c).deep_view().len() && (#[trigger] old(c).deep_view()[i]).0 == key;
                        let ecost = (224 + 16 * encode_utf8(key).len() + vcost + (
                        if dup {
                            288nat
                        } else {
                            0nat
                        })) as nat;
                        &&& (limit == 0 ==> (res is Ok && final(c).deep_view()
                            == spec_compound_put(old(c).deep_view(), key, t) && final(r)@ == old(r)@.skip(kused + vused) && final(accounter).current() == cur0))
                        &&& (limit != 0 && cur0 + ecost <= limit ==> (res is Ok && final(c).deep_view() == spec_compound_put(old(c).deep_view(), key, t) && final(r)@ == old(r)@.skip(kused + vused) && final(accounter).current() == cur0
                            + ecost))
                        &&& (limit != 0 && cur0 + ecost > limit ==> (res matches Err(e) && (limit
                            < 0x8000_0000_0000_0000 && cur0 + ecost <= u64::MAX ==> e.error_type
                            == ErrorType::OversizedTag)))
                    },
                },
            }
        }),
    decreases old(r)@.len(), 1int, 1int,
{
    let ghost pre1 = old(r)@;
    let key = match read_nbt_string(r) {
        Ok(s) => s,
        Err(e) => {
            return Err(e);
        },
    };
    proof {
        lemma_parse_str_used(pre1);
    }
    let key_len = key.as_str().as_bytes_vec().len();
    match (key_len as u64).checked_mul(16) {
        Some(c16) => {
            match c16.checked_add(224) {
                Some(charge) => {
                    match accounter.account_bytes(charge) {
                        Ok(()) => {},
                        Err(e) => {
                            return Err(e);
                        },
                    }
                },
                None => {
                    if accounter.is_enabled() {
                        return Err(TransportError::error(ErrorType::NumericOverflow));
                    }
                },
            }
        },
        None => {
            if accounter.is_enabled() {
                return Err(TransportError::error(ErrorType::NumericOverflow));
            }
        },
    }
    let ghost pre2 = r@;
    proof {
        lemma_parse_tag_used(eid, pre2, depth as int);
    }
    let value = match load_tag(r, eid, depth, accounter) {
        Ok(v) => v,
        Err(e) => {
            return Err(e);
        },
    };
    let dup = match c.get_tag(&key) {
        Some(_) => true,
        None => false,
    };
    c.put_tag(key, value);
    if dup {
        match accounter.account_bytes(288) {
            Ok(()) => {},
            Err(e) => {
                return Err(e);
            },
        }
    }
    Ok(())
}

/// Reads a compound body: entries until an end marker, inserting each into
/// the mapping, with the duplicate-entry cost charged when a key recurs.
#[verifier::rlimit(100)]
fn load_compound_body(r: &mut ByteReader, depth: i32, accounter: &mut NbtAccounter) -> (res:
    TransportResult<CompoundTag>)
    requires
        old(r).wf(),
        0 <= depth,
        old(accounter).limit() != 0 ==> old(accounter).current() <= old(accounter).limit(),
    ensures
        final(r).wf(),
        final(accounter).limit() == old(accounter).limit(),
        old(accounter).limit() != 0 ==> final(accounter).current() <= old(accounter).limit(),
        res matches Ok(c) ==> c.wf(),
        ({
            let outcome = (match parse_compound(old(r)@, depth as int, Seq::empty()) {
                CompParse::CDone { entries, used, cost } => NbtParse::Done {
                    t: TagV::Compound(entries),
                    used,
                    cost,
                },
                CompParse::CBad { kind } => NbtParse::Bad { kind },
            });
            load_post(
                outcome,
                old(accounter).limit(),
                old(accounter).current(),
                final(accounter).current(),
                old(r)@,
                final(r)@,
                res,
                (match res {
                    Ok(c) => TagV::Compound(c.deep_view()),
                    Err(_) => TagV::End,
                }),
            )
        }),
    decreases old(r)@.len(), 0int, 0int,
{
    let ghost b0c = old(r)@;
    let ghost limit0 = old(accounter).limit();
    let ghost acct1 = old(accounter).current();
    let ghost spent0: nat = 0;
    let ghost mut spent: nat = spent0;
    let mut c = CompoundTag::new();
    proof {
        assert(b0c.skip(0) =~= b0c);
    }
    loop
        invariant_except_break
            b0c == old(r)@,
            limit0 == old(accounter).limit(),
            acct1 == old(accounter).current(),
            limit0 != 0 ==> acct1 <= limit0,
            0 <= depth,
            r.wf(),
            c.wf(),
            r@.len() <= b0c.len(),
            r@ == b0c.skip(b0c.len() - r@.len()),
            accounter.limit() == limit0,
            limit0 == 0 ==> accounter.current() == acct1,
            limit0 != 0 ==> accounter.current() == acct1 + spent && acct1 + spent <= limit0,
            match parse_compound(r@, depth as int, c.deep_view()) {
                CompParse::CDone { entries, used: u2, cost: c2 } => parse_compound(
                    b0c,
                    depth as int,
                    Seq::empty(),
                ) == (CompParse::CDone {
                    entries,
                    used: b0c.len() - r@.len() + u2,
                    cost: (spent + c2) as nat,
                }),
                CompParse::CBad { kind } => parse_compound(b0c, depth as int, Seq::empty()) == (
                CompParse::CBad { kind }),
            },
        ensures
            r.wf(),
            c.wf(),
            accounter.limit() == limit0,
            limit0 == 0 ==> accounter.current() == acct1,
            limit0 != 0 ==> accounter.current() == acct1 + spent && acct1 + spent <= limit0,
            (parse_compound(b0c, depth as int, Seq::empty()) matches CompParse::CDone {
                entries,
                used,
                cost,
            } && entries == c.deep_view() && r@ == b0c.skip(used) && cost == spent),
        decreases r@.len(),
    {
        let ghost pre = r@;
        let eid = match r.read_u8() {
            Ok(b) => b,
            Err(e) => {
                proof {
                    assert(pre.len() == 0);
                    assert(parse_compound(pre, depth as int, c.deep_view())
                        == (CompParse::CBad { kind: ErrorType::EOF }));
                }
                return Err(e);
            },
        };
        if eid == 0 {
            proof {
                assert(b0c.skip(b0c.len() - pre.len()).skip(1) =~= b0c.skip(
                    b0c.len() - pre.len() + 1,
                ));
            }
            break ;
        }
        let ghost pre1 = r@;
        let ghost c_pre = c.deep_view();
        let ghost cur_pre = accounter.current();
        proof {
            assert(pre.skip(1) =~= pre1);
            lemma_parse_str_used(pre1);
            if let StrParse::SDone { s: pk, used: pku } = parse_nbt_str(pre1) {
                assert(pre1.skip(pku) =~= pre.skip(1 + pku));
                lemma_parse_tag_used(eid, pre1.skip(pku), depth as int);
            }
        }
        match load_compound_entry(r, eid, depth, accounter, &mut c) {
            Ok(()) => {
                proof {
                    if let StrParse::SDone { s: pk, used: pku } = parse_nbt_str(pre1) {
                        if let NbtParse::Done { t, used: vused, cost: vcost } = parse_tag(
                            eid,
                            pre1.skip(pku),
                            depth as int,
                        ) {
                            let dup = exists|i: int|
                                0 <= i < c_pre.len() && (#[trigger] c_pre[i]).0 == pk;
                            let ecost = (224 + 16 * encode_utf8(pk).len() + vcost + (
                            if dup {
                                288nat
                            } else {
                                0nat
                            })) as nat;
                            assert(pre1.skip(pku + vused) =~= pre.skip(1 + pku + vused));
                            assert(b0c.skip(b0c.len() - pre.len()).skip(1 + pku + vused)
                                =~= b0c.skip(b0c.len() - pre.len() + 1 + pku + vused));
                            spent = (spent + ecost) as nat;
                        }
                    }
                }
            },
            Err(e) => {
                proof {
                    match parse_nbt_str(pre1) {
                        StrParse::SBad { kind } => {
                            assert(parse_compound(pre, depth as int, c_pre) == (CompParse::CBad {
                                kind,
                            }));
                        },
                        StrParse::SDone { s: pk, used: pku } => {
                            match parse_tag(eid, pre1.skip(pku), depth as int) {
                                NbtParse::Bad { kind } => {
                                    assert(parse_compound(pre, depth as int, c_pre) == (
                                    CompParse::CBad { kind }));
                                },
                                NbtParse::Done { t, used: vused, cost: vcost } => {
                                    let dup = exists|i: int|
                                        0 <= i < c_pre.len() && (#[trigger] c_pre[i]).0 == pk;
                                    let ecost = (224 + 16 * encode_utf8(pk).len() + vcost + (
                                    if dup {
                                        288nat
                                    } else {
                                        0nat
                                    })) as nat;
                                    assert(limit0 != 0);
                                    assert(cur_pre == acct1 + spent);
                                    assert(cur_pre + ecost > limit0);
                                    assert(pre1.skip(pku + vused) =~= pre.skip(1 + pku + vused));
                                    match parse_compound(
                                        pre.skip(1 + pku + vused),
                                        depth as int,
                                        spec_compound_put(c_pre, pk, t),
                                    ) {
                                        CompParse::CBad { kind } => {
                                            assert(parse_compound(pre, depth as int, c_pre) == (
                                            CompParse::CBad { kind }));
                                        },
                                        CompParse::CDone { entries: er, used: ur, cost: cr } => {
                                            assert(parse_compound(pre, depth as int, c_pre) == (
                                            CompParse::CDone {
                                                entries: er,
                                                used: 1 + pku + vused + ur,
                                                cost: (ecost + cr) as nat,
                                            }));
                                            assert(acct1 + (spent + ((ecost + cr) as nat))
                                                >= cur_pre + ecost);
                                        },
                                    }
                                },
                            }
                        },
                    }
                }
                return Err(e);
            },
        }
    }
    Ok(c)
}

/// Reads one tag payload of type `id` at nesting depth `depth`, charging the
/// accounter as it goes. The result, the bytes consumed, the cost charged and
/// each failure are exactly what the parse specification says; a nonzero
/// ceiling turns a too-costly tree into an error before it completes.
#[verifier::rlimit(100)]
pub fn load_tag(r: &mut ByteReader, id: u8, depth: i32, accounter: &mut NbtAccounter) -> (res:
    TransportResult<Tag>)
    requires
        old(r).wf(),
        0 <= depth,
        old(accounter).limit() != 0 ==> old(accounter).current() <= old(accounter).limit(),
    ensures
        final(r).wf(),
        final(accounter).limit() == old(accounter).limit(),
        old(accounter).limit() != 0 ==> final(accounter).current() <= old(accounter).limit(),
        load_post(
            parse_tag(id, old(r)@, depth as int),
            old(accounter).limit(),
            old(accounter).current(),
            final(accounter).current(),
            old(r)@,
            final(r)@,
            res,
            (match res {
                Ok(v) => v.deep_view(),
                Err(_) => TagV::End,
            }),
        ),
    decreases old(r)@.len(), 1int, 0int,
{
    if id == 0 {
        accounter.account_bytes(64)?;
        proof {
            assert(r@ =~= old(r)@.skip(0));
        }
        Ok(Tag::EndTag)
    } else if id == 1 {
        accounter.account_bytes(72)?;
        let b = r.read_u8()?;
        Ok(Tag::ByteTag(b))
    } else if id == 2 {
        accounter.account_bytes(80)?;
        proof {
            lemma_pow256_values();
            if old(r)@.len() >= 2 {
                lemma_be_value_bound(old(r)@.take(2));
            }
        }
        let x = read_be(r, 2)?;
        Ok(Tag::ShortTag((x as u16) as i16))
    } else if id == 3 {
        accounter.account_bytes(96)?;
        proof {
            lemma_pow256_values();
            if old(r)@.len() >= 4 {
                lemma_be_value_bound(old(r)@.take(4));
            }
        }
        let x = read_be(r, 4)?;
        Ok(Tag::IntTag((x as u32) as i32))
    } else if id == 4 {
        accounter.account_bytes(128)?;
        proof {
            lemma_pow256_values();
            if old(r)@.len() >= 8 {
                lemma_be_value_bound(old(r)@.take(8));
            }
        }
        let x = read_be(r, 8)?;
        Ok(Tag::LongTag((x as u64) as i64))
    } else if id == 5 {
        accounter.account_bytes(96)?;
        proof {
            lemma_pow256_values();
            if old(r)@.len() >= 4 {
                lemma_be_value_bound(old(r)@.take(4));
            }
        }
        let x = read_be(r, 4)?;
        Ok(Tag::FloatTag(x as u32))
    } else if id == 6 {
        accounter.account_bytes(128)?;
        proof {
            lemma_pow256_values();
            if old(r)@.len() >= 8 {
                lemma_be_value_bound(old(r)@.take(8));
            }
        }
        let x = read_be(r, 8)?;
        Ok(Tag::DoubleTag(x as u64))
    } else if id == 7 {
        accounter.account_bytes(192)?;
        proof {
            lemma_pow256_values();
            if old(r)@.len() >= 4 {
                lemma_be_value_bound(old(r)@.take(4));
            }
        }
        let x = read_be(r, 4)?;
        let n = (x as u32) as i32;
        if n < 0 {
            return Err(TransportError::error(ErrorType::NumericOverflow));
        }
        accounter.account_bytes(8 * (n as u64))?;
        let bytes = r.read_exact(n as usize)?;
        proof {
            assert(r@ =~= old(r)@.skip(4 + n as int));
        }
        Ok(Tag::ByteArrayTag(bytes))
    } else if id == 8 {
        accounter.account_bytes(288)?;
        let s = read_nbt_string(r)?;
        let byte_len = s.as_str().as_bytes_vec().len();
        match (byte_len as u64).checked_mul(16) {
            Some(c) => {
                accounter.account_bytes(c)?;
            },
            None => {
                if accounter.is_enabled() {
                    return Err(TransportError::error(ErrorType::NumericOverflow));
                }
            },
        }
        Ok(Tag::StringTag(s))
    } else if id == 9 {
        accounter.account_bytes(296)?;
        if depth >= MAX_TAG_DEPTH {
            return Err(TransportError::measured(depth as u64, 512, ErrorType::DepthExceeded));
        }
        let elem = r.read_u8()?;
        proof {
            lemma_pow256_values();
            if old(r)@.len() >= 5 {
                lemma_be_value_bound(old(r)@.skip(1).take(4));
                assert(old(r)@.skip(1).take(4) =~= r@.take(4));
            }
        }
        let x = read_be(r, 4)?;
        let n = (x as u32) as i32;
        if elem == 0 && n > 0 {
            return Err(TransportError::error(ErrorType::MissingListType));
        }
        if n < 0 {
            return Err(TransportError::error(ErrorType::NumericOverflow));
        }
        accounter.account_bytes(32 * (n as u64))?;
        proof {
            assert(old(r)@.skip(1).skip(4) =~= old(r)@.skip(5));
        }
        let items = match load_elems(r, elem, n, depth + 1, accounter) {
            Ok(items) => items,
            Err(e) => {
                return Err(e);
            },
        };
        proof {
            if let ElemsParse::EDone { items: ms, used, cost } = parse_elems(
                elem,
                old(r)@.skip(5),
                n as int,
                depth as int + 1,
            ) {
                lemma_parse_elems_used(elem, old(r)@.skip(5), n as int, depth as int + 1);
                assert(old(r)@.skip(5).skip(used) =~= old(r)@.skip(5 + used));
            }
        }
        Ok(Tag::ListTag(elem, items))
    } else if id == 10 {
        accounter.account_bytes(384)?;
        if depth >= MAX_TAG_DEPTH {
            return Err(TransportError::measured(depth as u64, 512, ErrorType::DepthExceeded));
        }
        let c = match load_compound_body(r, depth + 1, accounter) {
            Ok(c) => c,
            Err(e) => {
                return Err(e);
            },
        };
        Ok(Tag::CompoundTag(c))
    } else if id == 11 {
        accounter.account_bytes(192)?;
        proof {
            lemma_pow256_values();
            if old(r)@.len() >= 4 {
                lemma_be_value_bound(old(r)@.take(4));
            }
        }
        let x = read_be(r, 4)?;
        let n = (x as u32) as i32;
        if n < 0 {
            return Err(TransportError::error(ErrorType::NumericOverflow));
        }
        accounter.account_bytes(32 * (n as u64))?;
        let ghost b4 = old(r)@.skip(4);
        let mut vs: Vec<i32> = Vec::new();
        let mut k: i32 = 0;
        proof {
            assert(r@ =~= b4.skip(0));
        }
        while k < n
            invariant
                b4 == old(r)@.skip(4),
                r.wf(),
                0 <= k <= n,
                id == 11,
                4 * k as int <= b4.len(),
                r@ == b4.skip(4 * k as int),
                vs@.len() == k as int,
                old(r)@.len() >= 4,
                n == (be_value(old(r)@.take(4)) as u32) as i32,
                accounter.limit() == old(accounter).limit(),
                old(accounter).limit() != 0 ==> accounter.current() <= old(accounter).limit(),
                forall|j: int|
                    0 <= j < k ==> vs@[j] == (be_value(
                        #[trigger] b4.subrange(4 * j, 4 * j + 4),
                    ) as u32) as i32,
            decreases n - k,
        {
            let ghost pre = r@;
            let x = match read_be(r, 4) {
                Ok(x) => x,
                Err(e) => {
                    proof {
                        assert(pre.len() < 4);
                        assert(b4.len() < 4 * n as int);
                        assert(old(r)@.len() - 4 < 4 * n as int);
                    }
                    return Err(e);
                },
            };
            proof {
                lemma_pow256_values();
                lemma_be_value_bound(pre.take(4));
                assert(pre.take(4) =~= b4.subrange(4 * k as int, 4 * k as int + 4));
            }
            vs.push((x as u32) as i32);
            proof {
                assert(b4.skip(4 * k as int).skip(4) =~= b4.skip(4 * (k as int + 1)));
            }
            k = k + 1;
        }
        proof {
            assert(vs@ =~= ints_of(b4, n as int));
            assert(r@ =~= old(r)@.skip(4 + 4 * n as int));
        }
        Ok(Tag::IntArrayTag(vs))
    } else if id == 12 {
        accounter.account_bytes(192)?;
        proof {
            lemma_pow256_values();
            if old(r)@.len() >= 4 {
                lemma_be_value_bound(old(r)@.take(4));
            }
        }
        let x = read_be(r, 4)?;
        let n = (x as u32) as i32;
        if n < 0 {
            return Err(TransportError::error(ErrorType::NumericOverflow));
        }
        accounter.account_bytes(64 * (n as u64))?;
        let ghost b4 = old(r)@.skip(4);
        let mut vs: Vec<i64> = Vec::new();
        let mut k: i32 = 0;
        proof {
            assert(r@ =~= b4.skip(0));
        }
        while k < n
            invariant
                b4 == old(r)@.skip(4),
                r.wf(),
                0 <= k <= n,
                id == 12,
                8 * k as int <= b4.len(),
                r@ == b4.skip(8 * k as int),
                vs@.len() == k as int,
                old(r)@.len() >= 4,
                n == (be_value(old(r)@.take(4)) as u32) as i32,
                accounter.limit() == old(accounter).limit(),
                old(accounter).limit() != 0 ==> accounter.current() <= old(accounter).limit(),
                forall|j: int|
                    0 <= j < k ==> vs@[j] == (be_value(
                        #[trigger] b4.subrange(8 * j, 8 * j + 8),
                    ) as u64) as i64,
            decreases n - k,
        {
            let ghost pre = r@;
            let x = match read_be(r, 8) {
                Ok(x) => x,
                Err(e) => {
                    proof {
                        assert(pre.len() < 8);
                        assert(b4.len() < 8 * n as int);
                        assert(old(r)@.len() - 4 < 8 * n as int);
                    }
                    return Err(e);
                },
            };
            proof {
                lemma_pow256_values();
                lemma_be_value_bound(pre.take(8));
                assert(pre.take(8) =~= b4.subrange(8 * k as int, 8 * k as int + 8));
            }
            vs.push((x as u64) as i64);
            proof {
                assert(b4.skip(8 * k as int).skip(8) =~= b4.skip(8 * (k as int + 1)));
            }
            k = k + 1;
        }
        proof {
            assert(vs@ =~= longs_of(b4, n as int));
            assert(r@ =~= old(r)@.skip(4 + 8 * n as int));
        }
        Ok(Tag::LongArrayTag(vs))
    } else {
        Err(TransportError::measured(id as u64, 12, ErrorType::UnknownTagId))
    }
}


/// Writing one more tag appends its wire image.
pub proof fn lemma_tags_wire_snoc(items: Seq<TagV>, t: TagV)
    ensures
        tags_wire(items.push(t)) == tags_wire(items) + tag_wire(t),
    decreases items.len(),
{
    if items.len() == 0 {
        assert(items.push(t)[0] == t);
        assert(items.push(t).skip(1) =~= Seq::<TagV>::empty());
        assert(tags_wire(items.push(t).skip(1)) =~= Seq::<u8>::empty());
        assert(tags_wire(items) =~= Seq::<u8>::empty());
        assert(tags_wire(items.push(t)) =~= tags_wire(items) + tag_wire(t));
    } else {
        assert(items.push(t).skip(1) =~= items.skip(1).push(t));
        lemma_tags_wire_snoc(items.skip(1), t);
        assert(items.push(t)[0] == items[0]);
        assert(tag_wire(items[0]) + (tags_wire(items.skip(1)) + tag_wire(t)) =~= (tag_wire(
            items[0],
        ) + tags_wire(items.skip(1))) + tag_wire(t));
    }
}

/// A tag sequence is writable exactly when each of its tags is.
pub proof fn lemma_tags_writable_index(items: Seq<TagV>)
    ensures
        tags_writable(items) <==> (forall|i: int|
            0 <= i < items.len() ==> tag_writable(#[trigger] items[i])),
    decreases items.len(),
{
    if items.len() > 0 {
        lemma_tags_writable_index(items.skip(1));
        assert(forall|i: int|
            0 <= i < items.skip(1).len() ==> #[trigger] items.skip(1)[i] == items[i + 1]);
        if forall|i: int| 0 <= i < items.len() ==> tag_writable(#[trigger] items[i]) {
            assert forall|i: int|
                0 <= i < items.skip(1).len() implies tag_writable(
                #[trigger] items.skip(1)[i],
            ) by {
                assert(tag_writable(items[i + 1]));
            }
            assert(tags_writable(items.skip(1)));
            assert(tag_writable(items[0]));
        }
        if tags_writable(items) {
            assert forall|i: int| 0 <= i < items.len() implies tag_writable(
                #[trigger] items[i],
            ) by {
                if i > 0 {
                    assert(tag_writable(items.skip(1)[i - 1]));
                }
            }
        }
    }
}

/// Writing one more entry appends its wire image.
pub proof fn lemma_entries_wire_snoc(entries: Seq<(Seq<char>, TagV)>, e: (Seq<char>, TagV))
    ensures
        compound_entries_wire(entries.push(e)) == compound_entries_wire(entries) + (seq![
            spec_tag_id(e.1),
        ] + nbt_str_wire(e.0) + tag_wire(e.1)),
    decreases entries.len(),
{
    let ew = seq![spec_tag_id(e.1)] + nbt_str_wire(e.0) + tag_wire(e.1);
    if entries.len() == 0 {
        assert(entries.push(e)[0] == e);
        assert(entries.push(e).skip(1) =~= Seq::<(Seq<char>, TagV)>::empty());
        assert(compound_entries_wire(entries.push(e).skip(1)) =~= Seq::<u8>::empty());
        assert(compound_entries_wire(entries) =~= Seq::<u8>::empty());
        assert(compound_entries_wire(entries.push(e)) =~= compound_entries_wire(entries) + ew);
    } else {
        assert(entries.push(e).skip(1) =~= entries.skip(1).push(e));
        lemma_entries_wire_snoc(entries.skip(1), e);
        assert(entries.push(e)[0] == entries[0]);
        let hw = seq![spec_tag_id(entries[0].1)] + nbt_str_wire(entries[0].0) + tag_wire(
            entries[0].1,
        );
        assert(hw + (compound_entries_wire(entries.skip(1)) + ew) =~= (hw + compound_entries_wire(
            entries.skip(1),
        )) + ew);
    }
}

/// A compound body is writable exactly when each of its entries is.
pub proof fn lemma_compound_writable_index(entries: Seq<(Seq<char>, TagV)>)
    ensures
        compound_writable(entries) <==> (forall|i: int|
            0 <= i < entries.len() ==> (str_writable((#[trigger] entries[i]).0) && entries[i].1
                != TagV::End && tag_writable(entries[i].1))),
    decreases entries.len(),
{
    if entries.len() > 0 {
        lemma_compound_writable_index(entries.skip(1));
        assert(forall|i: int|
            0 <= i < entries.skip(1).len() ==> #[trigger] entries.skip(1)[i] == entries[i + 1]);
        if forall|i: int|
            0 <= i < entries.len() ==> (str_writable((#[trigger] entries[i]).0) && entries[i].1
                != TagV::End && tag_writable(entries[i].1)) {
            assert forall|i: int|
                0 <= i < entries.skip(1).len() implies (str_writable(
                (#[trigger] entries.skip(1)[i]).0,
            ) && entries.skip(1)[i].1 != TagV::End && tag_writable(entries.skip(1)[i].1)) by {
                assert(entries.skip(1)[i] == entries[i + 1]);
            }
            assert(compound_writable(entries.skip(1)));
        }
        if compound_writable(entries) {
            assert forall|i: int|
                0 <= i < entries.len() implies (str_writable((#[trigger] entries[i]).0)
                    && entries[i].1 != TagV::End && tag_writable(entries[i].1)) by {
                if i > 0 {
                    assert(entries.skip(1)[i - 1] == entries[i]);
                }
            }
        }
    }
}

/// Writing one more 32-bit value appends its image.
pub proof fn lemma_ints_wire_snoc(vs: Seq<i32>, v: i32)
    ensures
        ints_wire(vs.push(v)) == ints_wire(vs) + spec_i32_be(v),
    decreases vs.len(),
{
    if vs.len() == 0 {
        assert(vs.push(v)[0] == v);
        assert(vs.push(v).skip(1) =~= Seq::<i32>::empty());
        assert(ints_wire(vs.push(v).skip(1)) =~= Seq::<u8>::empty());
        assert(ints_wire(vs) =~= Seq::<u8>::empty());
        assert(ints_wire(vs.push(v)) =~= ints_wire(vs) + spec_i32_be(v));
    } else {
        assert(vs.push(v).skip(1) =~= vs.skip(1).push(v));
        lemma_ints_wire_snoc(vs.skip(1), v);
        assert(vs.push(v)[0] == vs[0]);
        assert(spec_i32_be(vs[0]) + (ints_wire(vs.skip(1)) + spec_i32_be(v)) =~= (spec_i32_be(
            vs[0],
        ) + ints_wire(vs.skip(1))) + spec_i32_be(v));
    }
}

/// Writing one more 64-bit value appends its image.
pub proof fn lemma_longs_wire_snoc(vs: Seq<i64>, v: i64)
    ensures
        longs_wire(vs.push(v)) == longs_wire(vs) + be_bytes((v as u64) as nat, 8),
    decreases vs.len(),
{
    let ew = be_bytes((v as u64) as nat, 8);
    if vs.len() == 0 {
        assert(vs.push(v)[0] == v);
        assert(vs.push(v).skip(1) =~= Seq::<i64>::empty());
        assert(longs_wire(vs.push(v).skip(1)) =~= Seq::<u8>::empty());
        assert(longs_wire(vs) =~= Seq::<u8>::empty());
        assert(longs_wire(vs.push(v)) =~= longs_wire(vs) + ew);
    } else {
        assert(vs.push(v).skip(1) =~= vs.skip(1).push(v));
        lemma_longs_wire_snoc(vs.skip(1), v);
        assert(vs.push(v)[0] == vs[0]);
        let hw = be_bytes((vs[0] as u64) as nat, 8);
        assert(hw + (longs_wire(vs.skip(1)) + ew) =~= (hw + longs_wire(vs.skip(1))) + ew);
    }
}

/// A tag sequence is invertible exactly when each of its tags is.
pub proof fn lemma_tags_invertible_index(items: Seq<TagV>)
    ensures
        tags_invertible(items) <==> (forall|i: int|
            0 <= i < items.len() ==> tag_invertible(#[trigger] items[i])),
    decreases items.len(),
{
    if items.len() > 0 {
        lemma_tags_invertible_index(items.skip(1));
        assert(forall|i: int|
            0 <= i < items.skip(1).len() ==> #[trigger] items.skip(1)[i] == items[i + 1]);
        if forall|i: int| 0 <= i < items.len() ==> tag_invertible(#[trigger] items[i]) {
            assert forall|i: int|
                0 <= i < items.skip(1).len() implies tag_invertible(
                #[trigger] items.skip(1)[i],
            ) by {
                assert(tag_invertible(items[i + 1]));
            }
            assert(tags_invertible(items.skip(1)));
            assert(tag_invertible(items[0]));
        }
        if tags_invertible(items) {
            assert forall|i: int| 0 <= i < items.len() implies tag_invertible(
                #[trigger] items[i],
            ) by {
                if i > 0 {
                    assert(tag_invertible(items.skip(1)[i - 1]));
                }
            }
        }
    }
}

/// A compound body is invertible exactly when each of its entries is.
pub proof fn lemma_entries_invertible_index(entries: Seq<(Seq<char>, TagV)>)
    ensures
        entries_invertible(entries) <==> (forall|i: int|
            0 <= i < entries.len() ==> (str_invertible((#[trigger] entries[i]).0)
                && tag_invertible(entries[i].1))),
    decreases entries.len(),
{
    if entries.len() > 0 {
        lemma_entries_invertible_index(entries.skip(1));
        assert(forall|i: int|
            0 <= i < entries.skip(1).len() ==> #[trigger] entries.skip(1)[i] == entries[i + 1]);
        if forall|i: int|
            0 <= i < entries.len() ==> (str_invertible((#[trigger] entries[i]).0)
                && tag_invertible(entries[i].1)) {
            assert forall|i: int|
                0 <= i < entries.skip(1).len() implies (str_invertible(
                (#[trigger] entries.skip(1)[i]).0,
            ) && tag_invertible(entries.skip(1)[i].1)) by {
                assert(entries.skip(1)[i] == entries[i + 1]);
            }
            assert(entries_invertible(entries.skip(1)));
        }
        if entries_invertible(entries) {
            assert forall|i: int|
                0 <= i < entries.len() implies (str_invertible((#[trigger] entries[i]).0)
                    && tag_invertible(entries[i].1)) by {
                if i > 0 {
                    assert(entries.skip(1)[i - 1] == entries[i]);
                }
            }
        }
    }
}

/// Only the end marker has the type identifier zero.
pub proof fn lemma_tag_id_zero(t: TagV)
    ensures
        spec_tag_id(t) == 0 ==> t is End,
{
}

/// Appends the wire image of a compound body: each entry, then the end
/// marker.
#[verifier::rlimit(100)]
#[verifier::loop_isolation(false)]
pub fn write_compound_body(c: &CompoundTag, out: &mut Vec<u8>) -> (res: TransportResult<()>)
    ensures
        res is Ok <==> compound_writable(c.deep_view()),
        res is Ok ==> final(out)@ == old(out)@ + compound_wire(c.deep_view())
            && entries_invertible(c.deep_view()),
    decreases c,
{
    let n = c.mappings.len();
    proof {
        lemma_entries_view_index(c.mappings@);
        lemma_compound_writable_index(c.deep_view());
    }
    let mut i: usize = 0;
    while i < n
        invariant
            i <= n,
            n == c.mappings@.len(),
            n == c.deep_view().len(),
            forall|j: int|
                0 <= j < c.deep_view().len() ==> (#[trigger] c.deep_view()[j]) == (
                c.mappings@[j].0@,
                c.mappings@[j].1.deep_view(),
            ),
            compound_writable(c.deep_view()) <==> (forall|j: int|
                0 <= j < c.deep_view().len() ==> (str_writable((#[trigger] c.deep_view()[j]).0)
                    && c.deep_view()[j].1 != TagV::End && tag_writable(c.deep_view()[j].1))),
            forall|j: int|
                0 <= j < i ==> (str_writable((#[trigger] c.deep_view()[j]).0) && c.deep_view()[j].1
                    != TagV::End && tag_writable(c.deep_view()[j].1)),
            forall|j: int|
                0 <= j < i ==> (str_invertible((#[trigger] c.deep_view()[j]).0) && tag_invertible(
                    c.deep_view()[j].1,
                )),
            out@ =~= old(out)@ + compound_entries_wire(c.deep_view().take(i as int)),
        decreases n - i,
    {
        let id = c.mappings[i].1.get_bit();
        if id == 0 {
            proof {
                lemma_tag_id_zero(c.deep_view()[i as int].1);
                assert(!compound_writable(c.deep_view()));
            }
            return Err(TransportError::error(ErrorType::Generic));
        }
        out.push(id);
        match write_nbt_string(&c.mappings[i].0, out) {
            Ok(()) => {},
            Err(e) => {
                proof {
                    assert(!str_writable(c.deep_view()[i as int].0));
                    assert(!compound_writable(c.deep_view()));
                }
                return Err(e);
            },
        }
        match write_tag(&c.mappings[i].1, out) {
            Ok(()) => {},
            Err(e) => {
                return Err(e);
            },
        }
        proof {
            assert(c.deep_view().take(i as int + 1) =~= c.deep_view().take(i as int).push(
                c.deep_view()[i as int],
            ));
            lemma_entries_wire_snoc(c.deep_view().take(i as int), c.deep_view()[i as int]);
            assert(out@ =~= old(out)@ + compound_entries_wire(c.deep_view().take(i as int + 1)));
        }
        i = i + 1;
    }
    out.push(0);
    proof {
        assert(c.deep_view().take(n as int) =~= c.deep_view());
        assert(out@ =~= old(out)@ + compound_wire(c.deep_view()));
        lemma_entries_invertible_index(c.deep_view());
    }
    Ok(())
}

/// Appends the wire image of a tag's payload. Fails exactly on values that
/// cannot be written: oversized strings, arrays or lists, and end markers
/// stored inside compounds.
#[verifier::rlimit(100)]
#[verifier::loop_isolation(false)]
pub fn write_tag(tag: &Tag, out: &mut Vec<u8>) -> (res: TransportResult<()>)
    ensures
        res is Ok <==> tag_writable(tag.deep_view()),
        res is Ok ==> final(out)@ == old(out)@ + tag_wire(tag.deep_view()) && tag_invertible(
            tag.deep_view(),
        ),
    decreases tag,
{
    match tag {
        Tag::EndTag => {
            proof {
                assert(out@ =~= old(out)@ + tag_wire(tag.deep_view()));
            }
            Ok(())
        },
        Tag::ByteTag(v) => {
            out.push(*v);
            proof {
                assert(out@ =~= old(out)@ + tag_wire(tag.deep_view()));
            }
            Ok(())
        },
        Tag::ShortTag(v) => {
            proof {
                lemma_pow256_values();
            }
            let u: u16 = #[verifier::truncate] (*v as u16);
            write_be(out, u as u64, 2);
            Ok(())
        },
        Tag::IntTag(v) => {
            proof {
                lemma_pow256_values();
            }
            let u: u32 = #[verifier::truncate] (*v as u32);
            write_be(out, u as u64, 4);
            Ok(())
        },
        Tag::LongTag(v) => {
            proof {
                lemma_pow256_values();
            }
            let u: u64 = #[verifier::truncate] (*v as u64);
            write_be(out, u, 8);
            Ok(())
        },
        Tag::FloatTag(v) => {
            proof {
                lemma_pow256_values();
            }
            write_be(out, *v as u64, 4);
            Ok(())
        },
        Tag::DoubleTag(v) => {
            proof {
                lemma_pow256_values();
            }
            write_be(out, *v, 8);
            Ok(())
        },
        Tag::ByteArrayTag(b) => {
            if b.len() > 0x7fff_ffff {
                return Err(TransportError::error(ErrorType::BoundExceeded));
            }
            proof {
                lemma_pow256_values();
            }
            write_be(out, b.len() as u64, 4);
            crate::packet::string::append_bytes(out, b);
            proof {
                assert(((b@.len() as i32) as u32) as nat == b@.len());
                assert(out@ =~= old(out)@ + tag_wire(tag.deep_view()));
            }
            Ok(())
        },
        Tag::StringTag(s) => write_nbt_string(s, out),
        Tag::ListTag(id, items) => {
            proof {
                lemma_tags_view_index(items@);
            }
            if items.len() > 0x7fff_ffff {
                return Err(TransportError::error(ErrorType::BoundExceeded));
            }
            out.push(*id);
            proof {
                lemma_pow256_values();
            }
            write_be(out, items.len() as u64, 4);
            let ghost tv = tags_view(items@);
            proof {
                lemma_tags_view_index(items@);
                lemma_tags_writable_index(tv);
                assert(((items@.len() as i32) as u32) as nat == items@.len());
            }
            let n = items.len();
            let mut i: usize = 0;
            while i < n
                invariant
                    i <= n,
                    n == items@.len(),
                    n <= 0x7fff_ffff,
                    tv == tags_view(items@),
                    tv.len() == n,
                    forall|j: int| 0 <= j < n ==> tv[j] == #[trigger] items@[j].deep_view(),
                    tags_writable(tv) <==> (forall|j: int|
                        0 <= j < tv.len() ==> tag_writable(#[trigger] tv[j])),
                    forall|j: int| 0 <= j < i ==> tag_writable(#[trigger] tv[j]),
                    forall|j: int| 0 <= j < i ==> tag_invertible(#[trigger] tv[j]),
                    out@ =~= old(out)@ + seq![*id] + be_bytes(items@.len(), 4) + tags_wire(
                        tv.take(i as int),
                    ),
                decreases n - i,
            {
                match write_tag(&items[i], out) {
                    Ok(()) => {},
                    Err(e) => {
                        return Err(e);
                    },
                }
                proof {
                    assert(tv.take(i as int + 1) =~= tv.take(i as int).push(tv[i as int]));
                    lemma_tags_wire_snoc(tv.take(i as int), tv[i as int]);
                    assert(out@ =~= old(out)@ + seq![*id] + be_bytes(items@.len(), 4) + tags_wire(
                        tv.take(i as int + 1),
                    ));
                }
                i = i + 1;
            }
            proof {
                assert(tv.take(n as int) =~= tv);
                assert(out@ =~= old(out)@ + tag_wire(tag.deep_view()));
                lemma_tags_invertible_index(tv);
            }
            Ok(())
        },
        Tag::CompoundTag(c) => write_compound_body(c, out),
        Tag::IntArrayTag(vs) => {
            if vs.len() > 0x7fff_ffff {
                return Err(TransportError::error(ErrorType::BoundExceeded));
            }
            proof {
                lemma_pow256_values();
            }
            write_be(out, vs.len() as u64, 4);
            proof {
                assert(((vs@.len() as i32) as u32) as nat == vs@.len());
            }
            let n = vs.len();
            let mut i: usize = 0;
            while i < n
                invariant
                    i <= n,
                    n == vs@.len(),
                    n <= 0x7fff_ffff,
                    out@ =~= old(out)@ + be_bytes(vs@.len(), 4) + ints_wire(vs@.take(i as int)),
                decreases n - i,
            {
                proof {
                    lemma_pow256_values();
                }
                let u: u32 = #[verifier::truncate] (vs[i] as u32);
                write_be(out, u as u64, 4);
                proof {
                    assert(vs@.take(i as int + 1) =~= vs@.take(i as int).push(vs@[i as int]));
                    lemma_ints_wire_snoc(vs@.take(i as int), vs@[i as int]);
                    assert(out@ =~= old(out)@ + be_bytes(vs@.len(), 4) + ints_wire(
                        vs@.take(i as int + 1),
                    ));
                }
                i = i + 1;
            }
            proof {
                assert(vs@.take(n as int) =~= vs@);
                assert(out@ =~= old(out)@ + tag_wire(tag.deep_view()));
            }
            Ok(())
        },
        Tag::LongArrayTag(vs) => {
            if vs.len() > 0x7fff_ffff {
                return Err(TransportError::error(ErrorType::BoundExceeded));
            }
            proof {
                lemma_pow256_values();
            }
            write_be(out, vs.len() as u64, 4);
            proof {
                assert(((vs@.len() as i32) as u32) as nat == vs@.len());
            }
            let n = vs.len();
            let mut i: usize = 0;
            while i < n
                invariant
                    i <= n,
                    n == vs@.len(),
                    n <= 0x7fff_ffff,
                    out@ =~= old(out)@ + be_bytes(vs@.len(), 4) + longs_wire(vs@.take(i as int)),
                decreases n - i,
            {
                proof {
                    lemma_pow256_values();
                }
                let u: u64 = #[verifier::truncate] (vs[i] as u64);
                write_be(out, u, 8);
                proof {
                    assert(vs@.take(i as int + 1) =~= vs@.take(i as int).push(vs@[i as int]));
                    lemma_longs_wire_snoc(vs@.take(i as int), vs@[i as int]);
                    assert(out@ =~= old(out)@ + be_bytes(vs@.len(), 4) + longs_wire(
                        vs@.take(i as int + 1),
                    ));
                }
                i = i + 1;
            }
            proof {
                assert(vs@.take(n as int) =~= vs@);
                assert(out@ =~= old(out)@ + tag_wire(tag.deep_view()));
            }
            Ok(())
        },
    }
}


/// The byte count that writing a tag's payload produces: it mirrors the
/// wire layout exactly.
pub fn size_tag(tag: &Tag) -> (res: TransportResult<usize>)
    ensures
        res matches Ok(n) ==> tag_writable(tag.deep_view()) && n == tag_wire(
            tag.deep_view(),
        ).len(),
        res is Ok <==> tag_writable(tag.deep_view()),
{
    let mut scratch: Vec<u8> = Vec::new();
    write_tag(tag, &mut scratch)?;
    Ok(scratch.len())
}

/// Only the compound model stands behind a compound tag value.
pub proof fn lemma_view_compound(t: Tag)
    ensures
        t.deep_view() is Compound ==> t is CompoundTag,
{
}

/// Inserting into a mapping with unique keys keeps its keys unique.
pub proof fn lemma_put_preserves_unique(acc: Seq<(Seq<char>, TagV)>, key: Seq<char>, value: TagV)
    requires
        compound_keys_unique(acc),
    ensures
        compound_keys_unique(spec_compound_put(acc, key, value)),
{
    if exists|i: int| 0 <= i < acc.len() && (#[trigger] acc[i]).0 == key {
        let w = choose|i: int| 0 <= i < acc.len() && (#[trigger] acc[i]).0 == key;
        assert(spec_compound_put(acc, key, value) == acc.update(w, (key, value)));
    }
}

/// A parsed compound body holds each key at most once.
pub proof fn lemma_parse_compound_unique(b: Seq<u8>, depth: int, acc: Seq<(Seq<char>, TagV)>)
    requires
        compound_keys_unique(acc),
    ensures
        parse_compound(b, depth, acc) matches CompParse::CDone { entries, used, cost }
            ==> compound_keys_unique(entries),
    decreases b.len(), 0int, 0int,
{
    if b.len() >= 1 && b[0] != 0 {
        let eid = b[0];
        if let StrParse::SDone { s: key, used: kused } = parse_nbt_str(b.skip(1)) {
            if 2 <= kused && 1 + kused <= b.len() {
                if let NbtParse::Done { t, used: vused, cost } = parse_tag(
                    eid,
                    b.skip(1 + kused),
                    depth,
                ) {
                    if 0 <= vused && 1 + kused + vused <= b.len() {
                        lemma_put_preserves_unique(acc, key, t);
                        lemma_parse_compound_unique(
                            b.skip(1 + kused + vused),
                            depth,
                            spec_compound_put(acc, key, t),
                        );
                    }
                }
            }
        }
    }
}

/// The name-string skip at the root of a tag tree: the two-byte length and
/// that many bytes, whose text is discarded without being decoded.
pub open spec fn nbt_root_name_skip(b: Seq<u8>) -> Option<(int, Seq<u8>)> {
    if b.len() < 2 {
        None
    } else {
        let nlen = be_value(b.take(2)) as int;
        if b.len() - 2 < nlen {
            None
        } else {
            Some((2 + nlen, b.skip(2 + nlen)))
        }
    }
}

/// Reads one optional root tag: a single zero byte means no tag is present;
/// any other root than a compound tag is rejected; otherwise the root name
/// is skipped and the compound body is loaded under a fresh accounting
/// ceiling.
pub fn read_nbt(r: &mut ByteReader, limit: u64) -> (res: TransportResult<Option<CompoundTag>>)
    requires
        old(r).wf(),
    ensures
        final(r).wf(),
        old(r)@.len() == 0 ==> (res matches Err(e) && e.error_type == ErrorType::EOF),
        old(r)@.len() >= 1 && old(r)@[0] == 0 ==> (res matches Ok(op) && op is None && final(r)@
            == old(r)@.skip(1)),
        old(r)@.len() >= 1 && old(r)@[0] != 0 && old(r)@[0] != 10 ==> (res matches Err(e)
            && e.error_type == ErrorType::NonCompoundRoot),
        old(r)@.len() >= 1 && old(r)@[0] == 10 ==> (match nbt_root_name_skip(old(r)@.skip(1)) {
            Option::None => res matches Err(e) && e.error_type == ErrorType::EOF,
            Option::Some((nskip, body)) => {
                match parse_tag(10, body, 0) {
                    NbtParse::Done { t, used, cost } => {
                        &&& ((limit == 0 || cost <= limit) ==> (res matches Ok(op) && op
                            matches Some(c) && TagV::Compound(c.deep_view()) == t && c.wf()
                            && final(r)@ == body.skip(used)))
                        &&& (limit != 0 && cost > limit ==> (res matches Err(e) && (limit
                            < 0x8000_0000_0000_0000 && cost <= u64::MAX ==> e.error_type
                            == ErrorType::OversizedTag)))
                    },
                    NbtParse::Bad { kind } => {
                        &&& (limit == 0 ==> (res matches Err(e) && e.error_type == kind))
                        &&& res is Err
                    },
                }
            },
        }),
{
    let first = match r.read_u8() {
        Ok(b) => b,
        Err(e) => {
            return Err(e);
        },
    };
    if first == 0 {
        return Ok(None);
    }
    if first != COMPOUND_TAG_BIT {
        return Err(TransportError::error(ErrorType::NonCompoundRoot));
    }
    let mut accounter = NbtAccounter::new(limit);
    proof {
        lemma_pow256_values();
        if old(r)@.skip(1).len() >= 2 {
            lemma_be_value_bound(old(r)@.skip(1).take(2));
            assert(old(r)@.skip(1).take(2) =~= r@.take(2));
        }
    }
    let nlen = match read_be(r, 2) {
        Ok(x) => x,
        Err(e) => {
            return Err(e);
        },
    };
    let name = match r.read_exact(nlen as usize) {
        Ok(v) => v,
        Err(e) => {
            return Err(e);
        },
    };
    proof {
        assert(old(r)@.skip(1).skip(2).skip(nlen as int) =~= old(r)@.skip(1).skip(
            2 + nlen as int,
        ));
    }
    let ghost body = r@;
    let tag = match load_tag(r, COMPOUND_TAG_BIT, 0, &mut accounter) {
        Ok(t) => t,
        Err(e) => {
            return Err(e);
        },
    };
    proof {
        lemma_view_compound(tag);
        if let NbtParse::Done { t, used, cost } = parse_tag(10, body, 0) {
            lemma_parse_compound_unique(body, 1, Seq::empty());
        }
    }
    match tag {
        Tag::CompoundTag(c) => Ok(Some(c)),
        _ => {
            proof {
                assert(false);
            }
            Err(TransportError::error(ErrorType::Generic))
        },
    }
}

/// Writes one root compound: the compound type identifier, an empty name,
/// and the compound body.
pub fn write_nbt(tag: &CompoundTag, writer: &mut Vec<u8>) -> (res: TransportResult<()>)
    ensures
        res is Ok <==> compound_writable(tag.deep_view()),
        res is Ok ==> final(writer)@ == old(writer)@ + seq![10u8, 0u8, 0u8] + compound_wire(
            tag.deep_view(),
        ) && entries_invertible(tag.deep_view()),
{
    writer.push(COMPOUND_TAG_BIT);
    writer.push(0);
    writer.push(0);
    match write_compound_body(tag, writer) {
        Ok(()) => {
            proof {
                assert(writer@ =~= old(writer)@ + seq![10u8, 0u8, 0u8] + compound_wire(
                    tag.deep_view(),
                ));
            }
            Ok(())
        },
        Err(e) => Err(e),
    }
}

/// Writes one optional root compound: a single zero byte when there is no
/// tag, the full root encoding otherwise.
pub fn write_optional_nbt(tag: &Option<CompoundTag>, writer: &mut Vec<u8>) -> (res:
    TransportResult<()>)
    ensures
        tag matches Some(c) ==> ((res is Ok <==> compound_writable(c.deep_view())) && (res is Ok
            ==> final(writer)@ == old(writer)@ + seq![10u8, 0u8, 0u8] + compound_wire(
            c.deep_view(),
        ) && entries_invertible(c.deep_view()))),
        tag is None ==> (res is Ok && final(writer)@ == old(writer)@ + seq![0u8]),
{
    match tag {
        Some(c) => write_nbt(c, writer),
        None => {
            writer.push(0);
            proof {
                assert(writer@ =~= old(writer)@ + seq![0u8]);
            }
            Ok(())
        },
    }
}

/// The byte count of a compound body alone, without the root header.
pub fn size_nbt(tag: &CompoundTag) -> (res: TransportResult<usize>)
    ensures
        res matches Ok(n) ==> compound_writable(tag.deep_view()) && n == compound_wire(
            tag.deep_view(),
        ).len(),
        res is Ok <==> compound_writable(tag.deep_view()),
{
    let mut scratch: Vec<u8> = Vec::new();
    write_compound_body(tag, &mut scratch)?;
    Ok(scratch.len())
}

/// The byte count of an optional compound body: one byte when absent.
pub fn size_optional_nbt(tag: &Option<CompoundTag>) -> (res: TransportResult<usize>)
    ensures
        tag is None ==> (res matches Ok(n) && n == 1),
        tag matches Some(c) ==> ((res is Ok <==> compound_writable(c.deep_view())) && (res
            matches Ok(n) ==> n == compound_wire(c.deep_view()).len())),
{
    match tag {
        Some(c) => size_nbt(c),
        None => Ok(1),
    }
}

/// A component that carries an optional tag tree whose decode cost is capped
/// at `LIMIT`: a zero byte means no tag, anything but a compound root is
/// rejected, and the root name is skipped.
pub struct EnsuredCompoundTag<const LIMIT: u64>;

impl<const LIMIT: u64> EnsuredCompoundTag<LIMIT> {
    /// Reads one optional root tag under this component's cost ceiling.
    pub fn decode(r: &mut ByteReader) -> (res: TransportResult<Option<Tag>>)
        requires
            old(r).wf(),
        ensures
            final(r).wf(),
            old(r)@.len() == 0 ==> (res matches Err(e) && e.error_type == ErrorType::EOF),
            old(r)@.len() >= 1 && old(r)@[0] == 0 ==> (res matches Ok(op) && op is None && final(r)@ == old(r)@.skip(1)),
            old(r)@.len() >= 1 && old(r)@[0] != 0 && old(r)@[0] != 10 ==> (res matches Err(e)
                && e.error_type == ErrorType::NonCompoundRoot),
            old(r)@.len() >= 1 && old(r)@[0] == 10 ==> (match nbt_root_name_skip(
                old(r)@.skip(1),
            ) {
                Option::None => res matches Err(e) && e.error_type == ErrorType::EOF,
                Option::Some((nskip, body)) => {
                    match parse_tag(10, body, 0) {
                        NbtParse::Done { t, used, cost } => {
                            &&& ((LIMIT == 0 || cost <= LIMIT) ==> (res matches Ok(op) && op
                                matches Some(v) && v.deep_view() == t && final(r)@ == body.skip(
                                used,
                            )))
                            &&& (LIMIT != 0 && cost > LIMIT ==> (res matches Err(e) && (LIMIT
                                < 0x8000_0000_0000_0000 && cost <= u64::MAX ==> e.error_type
                                == ErrorType::OversizedTag)))
                        },
                        NbtParse::Bad { kind } => {
                            &&& (LIMIT == 0 ==> (res matches Err(e) && e.error_type == kind))
                            &&& res is Err
                        },
                    }
                },
            }),
    {
        let first = match r.read_u8() {
            Ok(b) => b,
            Err(e) => {
                return Err(e);
            },
        };
        if first == 0 {
            return Ok(None);
        }
        if first != COMPOUND_TAG_BIT {
            return Err(TransportError::error(ErrorType::NonCompoundRoot));
        }
        let mut accounter = NbtAccounter::new(LIMIT);
        proof {
            lemma_pow256_values();
            if old(r)@.skip(1).len() >= 2 {
                lemma_be_value_bound(old(r)@.skip(1).take(2));
                assert(old(r)@.skip(1).take(2) =~= r@.take(2));
            }
        }
        let nlen = match read_be(r, 2) {
            Ok(x) => x,
            Err(e) => {
                return Err(e);
            },
        };
        let name = match r.read_exact(nlen as usize) {
            Ok(v) => v,
            Err(e) => {
                return Err(e);
            },
        };
        proof {
            assert(old(r)@.skip(1).skip(2).skip(nlen as int) =~= old(r)@.skip(1).skip(
                2 + nlen as int,
            ));
        }
        let tag = match load_tag(r, COMPOUND_TAG_BIT, 0, &mut accounter) {
            Ok(t) => t,
            Err(e) => {
                return Err(e);
            },
        };
        Ok(Some(tag))
    }

    /// Writes one optional root tag: the compound type identifier, an empty
    /// name and the payload, or a single zero byte when absent.
    pub fn encode(v: &Option<Tag>, out: &mut Vec<u8>) -> (res: TransportResult<()>)
        ensures
            v matches Some(t) ==> ((res is Ok <==> tag_writable(t.deep_view())) && (res is Ok
                ==> final(out)@ == old(out)@ + seq![10u8, 0u8, 0u8] + tag_wire(t.deep_view())
                && tag_invertible(t.deep_view()))),
            v is None ==> (res is Ok && final(out)@ == old(out)@ + seq![0u8]),
    {
        match v {
            Some(t) => {
                out.push(COMPOUND_TAG_BIT);
                out.push(0);
                out.push(0);
                match write_tag(t, out) {
                    Ok(()) => {
                        proof {
                            assert(out@ =~= old(out)@ + seq![10u8, 0u8, 0u8] + tag_wire(
                                t.deep_view(),
                            ));
                        }
                        Ok(())
                    },
                    Err(e) => Err(e),
                }
            },
            None => {
                out.push(0);
                proof {
                    assert(out@ =~= old(out)@ + seq![0u8]);
                }
                Ok(())
            },
        }
    }

    /// The serialized length of one optional root tag.
    pub fn size(v: &Option<Tag>) -> (res: TransportResult<crate::packet::Size>)
        ensures
            v is None ==> (res matches Ok(s) && s == crate::packet::Size::Constant(1usize)),
            v matches Some(t) ==> ((res is Ok <==> (tag_writable(t.deep_view()) && 3 + tag_wire(
                t.deep_view(),
            ).len() <= usize::MAX)) && (res matches Ok(s) ==> s == crate::packet::Size::Dynamic(
                (3 + tag_wire(t.deep_view()).len()) as usize,
            ))),
    {
        match v {
            Some(t) => {
                let n = size_tag(t)?;
                match n.checked_add(3) {
                    Some(total) => Ok(crate::packet::Size::Dynamic(total)),
                    None => Err(TransportError::error(ErrorType::NumericOverflow)),
                }
            },
            None => Ok(crate::packet::Size::Constant(1)),
        }
    }
}


/// Array images have four bytes for each value, and reading them back
/// yields the values.
pub proof fn lemma_ints_wire_values(vs: Seq<i32>, rest: Seq<u8>)
    requires
        vs.len() <= 0x7fff_ffff,
    ensures
        ints_wire(vs).len() == 4 * vs.len(),
        ints_of(ints_wire(vs) + rest, vs.len() as int) == vs,
    decreases vs.len(),
{
    lemma_ints_wire_len(vs);
    let b = ints_wire(vs) + rest;
    assert forall|i: int| 0 <= i < vs.len() implies ints_of(b, vs.len() as int)[i] == vs[i] by {
        lemma_ints_wire_at(vs, i);
        assert(b.subrange(4 * i, 4 * i + 4) =~= ints_wire(vs).subrange(4 * i, 4 * i + 4));
        lemma_pow256_values();
        lemma_be_roundtrip(((vs[i] as u32)) as nat, 4);
        let vi = vs[i];
        assert(((vi as u32) as i32) == vi) by (bit_vector);
    }
    assert(ints_of(b, vs.len() as int) =~= vs);
}

proof fn lemma_ints_wire_len(vs: Seq<i32>)
    ensures
        ints_wire(vs).len() == 4 * vs.len(),
    decreases vs.len(),
{
    if vs.len() > 0 {
        lemma_ints_wire_len(vs.skip(1));
        lemma_be_bytes_len((vs[0] as u32) as nat, 4);
    }
}

proof fn lemma_ints_wire_at(vs: Seq<i32>, i: int)
    requires
        0 <= i < vs.len(),
    ensures
        ints_wire(vs).subrange(4 * i, 4 * i + 4) =~= spec_i32_be(vs[i]),
    decreases vs.len(),
{
    lemma_ints_wire_len(vs);
    lemma_be_bytes_len((vs[0] as u32) as nat, 4);
    if i == 0 {
        lemma_ints_wire_len(vs.skip(1));
        assert(ints_wire(vs).subrange(0, 4) =~= spec_i32_be(vs[0]));
    } else {
        lemma_ints_wire_at(vs.skip(1), i - 1);
        assert(ints_wire(vs).subrange(4 * i, 4 * i + 4) =~= ints_wire(vs.skip(1)).subrange(
            4 * (i - 1),
            4 * (i - 1) + 4,
        ));
    }
}

/// Array images have eight bytes for each value, and reading them back
/// yields the values.
pub proof fn lemma_longs_wire_values(vs: Seq<i64>, rest: Seq<u8>)
    requires
        vs.len() <= 0x7fff_ffff,
    ensures
        longs_wire(vs).len() == 8 * vs.len(),
        longs_of(longs_wire(vs) + rest, vs.len() as int) == vs,
    decreases vs.len(),
{
    lemma_longs_wire_len(vs);
    let b = longs_wire(vs) + rest;
    assert forall|i: int| 0 <= i < vs.len() implies longs_of(b, vs.len() as int)[i] == vs[i] by {
        lemma_longs_wire_at(vs, i);
        assert(b.subrange(8 * i, 8 * i + 8) =~= longs_wire(vs).subrange(8 * i, 8 * i + 8));
        lemma_pow256_values();
        lemma_be_roundtrip(((vs[i] as u64)) as nat, 8);
        let vi = vs[i];
        assert(((vi as u64) as i64) == vi) by (bit_vector);
    }
    assert(longs_of(b, vs.len() as int) =~= vs);
}

proof fn lemma_longs_wire_len(vs: Seq<i64>)
    ensures
        longs_wire(vs).len() == 8 * vs.len(),
    decreases vs.len(),
{
    if vs.len() > 0 {
        lemma_longs_wire_len(vs.skip(1));
        lemma_be_bytes_len((vs[0] as u64) as nat, 8);
    }
}

proof fn lemma_longs_wire_at(vs: Seq<i64>, i: int)
    requires
        0 <= i < vs.len(),
    ensures
        longs_wire(vs).subrange(8 * i, 8 * i + 8) =~= be_bytes((vs[i] as u64) as nat, 8),
    decreases vs.len(),
{
    lemma_longs_wire_len(vs);
    lemma_be_bytes_len((vs[0] as u64) as nat, 8);
    if i == 0 {
        lemma_longs_wire_len(vs.skip(1));
        assert(longs_wire(vs).subrange(0, 8) =~= be_bytes((vs[0] as u64) as nat, 8));
    } else {
        lemma_longs_wire_at(vs.skip(1), i - 1);
        assert(longs_wire(vs).subrange(8 * i, 8 * i + 8) =~= longs_wire(vs.skip(1)).subrange(
            8 * (i - 1),
            8 * (i - 1) + 8,
        ));
    }
}

/// Scanning the image of a writable, invertible string, whatever bytes
/// follow it, yields the string back.
pub proof fn lemma_str_roundtrip(s: Seq<char>, rest: Seq<u8>)
    requires
        str_writable(s),
        str_invertible(s),
    ensures
        parse_nbt_str(nbt_str_wire(s) + rest) == (StrParse::SDone {
            s,
            used: nbt_str_wire(s).len() as int,
        }),
        nbt_str_wire(s).len() == 2 + java_cesu8(s).len(),
{
    let cesu = java_cesu8(s);
    let b = nbt_str_wire(s) + rest;
    lemma_pow256_values();
    lemma_be_bytes_len((cesu.len() as u16) as nat, 2);
    lemma_be_roundtrip((cesu.len() as u16) as nat, 2);
    assert(b.take(2) =~= be_bytes((cesu.len() as u16) as nat, 2));
    assert(b.skip(2) =~= cesu + rest);
    assert((cesu + rest).take(cesu.len() as int) =~= cesu);
    assert(b.skip(2).take(cesu.len() as int) =~= cesu);
}

/// The largest height in a sequence bounds each element's height.
proof fn lemma_tags_height_at(items: Seq<TagV>, i: int)
    requires
        0 <= i < items.len(),
    ensures
        tag_height(items[i]) <= tags_height(items),
    decreases items.len(),
{
    if i > 0 {
        lemma_tags_height_at(items.skip(1), i - 1);
    }
}

/// The largest height in a compound body bounds each value's height.
proof fn lemma_entries_height_at(entries: Seq<(Seq<char>, TagV)>, i: int)
    requires
        0 <= i < entries.len(),
    ensures
        tag_height(entries[i].1) <= entries_height(entries),
    decreases entries.len(),
{
    if i > 0 {
        lemma_entries_height_at(entries.skip(1), i - 1);
    }
}

/// Scanning the image of a valid, invertible tag, whatever bytes follow it,
/// yields the tag back and consumes exactly its image: the codec is
/// lossless on every tree that fits the depth cap.
#[verifier::rlimit(100)]
pub proof fn lemma_tag_roundtrip(t: TagV, rest: Seq<u8>, depth: int)
    requires
        tag_valid(t),
        tag_invertible(t),
        0 <= depth,
        depth + tag_height(t) <= 512,
    ensures
        parse_tag(spec_tag_id(t), tag_wire(t) + rest, depth) matches NbtParse::Done {
            t: t2,
            used,
            cost,
        } && t2 == t && used == tag_wire(t).len(),
    decreases t, 1int,
{
    let b = tag_wire(t) + rest;
    match t {
        TagV::End => {
        },
        TagV::Byte(v) => {
            assert(b[0] == v);
        },
        TagV::Short(v) => {
            lemma_pow256_values();
            lemma_be_bytes_len((v as u16) as nat, 2);
            lemma_be_roundtrip((v as u16) as nat, 2);
            assert(b.take(2) =~= be_bytes((v as u16) as nat, 2));
            assert(((v as u16) as i16) == v) by (bit_vector);
        },
        TagV::Int(v) => {
            lemma_pow256_values();
            lemma_be_bytes_len((v as u32) as nat, 4);
            lemma_be_roundtrip((v as u32) as nat, 4);
            assert(b.take(4) =~= be_bytes((v as u32) as nat, 4));
            assert(((v as u32) as i32) == v) by (bit_vector);
        },
        TagV::Long(v) => {
            lemma_pow256_values();
            lemma_be_bytes_len((v as u64) as nat, 8);
            lemma_be_roundtrip((v as u64) as nat, 8);
            assert(b.take(8) =~= be_bytes((v as u64) as nat, 8));
            assert(((v as u64) as i64) == v) by (bit_vector);
        },
        TagV::Float(v) => {
            lemma_pow256_values();
            lemma_be_bytes_len(v as nat, 4);
            lemma_be_roundtrip(v as nat, 4);
            assert(b.take(4) =~= be_bytes(v as nat, 4));
        },
        TagV::Double(v) => {
            lemma_pow256_values();
            lemma_be_bytes_len(v as nat, 8);
            lemma_be_roundtrip(v as nat, 8);
            assert(b.take(8) =~= be_bytes(v as nat, 8));
        },
        TagV::Bytes(arr) => {
            lemma_pow256_values();
            lemma_be_bytes_len((arr.len() as i32 as u32) as nat, 4);
            lemma_be_roundtrip((arr.len() as i32 as u32) as nat, 4);
            assert(b.take(4) =~= be_bytes((arr.len() as i32 as u32) as nat, 4));
            assert(b.skip(4) =~= arr + rest);
            assert((arr + rest).take(arr.len() as int) =~= arr);
        },
        TagV::Str(s) => {
            lemma_str_roundtrip(s, rest);
        },
        TagV::List(id, items) => {
            lemma_pow256_values();
            lemma_be_bytes_len((items.len() as i32 as u32) as nat, 4);
            lemma_be_roundtrip((items.len() as i32 as u32) as nat, 4);
            assert(b[0] == id);
            assert(b.skip(1).take(4) =~= be_bytes((items.len() as i32 as u32) as nat, 4));
            assert(b.skip(5) =~= tags_wire(items) + rest);
            lemma_elems_roundtrip(items, id, rest, depth + 1);
        },
        TagV::Compound(entries) => {
            lemma_compound_roundtrip(entries, Seq::empty(), rest, depth + 1);
            assert(Seq::<(Seq<char>, TagV)>::empty() + entries =~= entries);
        },
        TagV::Ints(vs) => {
            lemma_pow256_values();
            lemma_be_bytes_len((vs.len() as i32 as u32) as nat, 4);
            lemma_be_roundtrip((vs.len() as i32 as u32) as nat, 4);
            assert(b.take(4) =~= be_bytes((vs.len() as i32 as u32) as nat, 4));
            lemma_ints_wire_values(vs, rest);
            assert(b.skip(4) =~= ints_wire(vs) + rest);
        },
        TagV::Longs(vs) => {
            lemma_pow256_values();
            lemma_be_bytes_len((vs.len() as i32 as u32) as nat, 4);
            lemma_be_roundtrip((vs.len() as i32 as u32) as nat, 4);
            assert(b.take(4) =~= be_bytes((vs.len() as i32 as u32) as nat, 4));
            lemma_longs_wire_values(vs, rest);
            assert(b.skip(4) =~= longs_wire(vs) + rest);
        },
    }
}

/// Scanning the concatenated images of valid list elements yields the
/// elements back.
#[verifier::rlimit(100)]
pub proof fn lemma_elems_roundtrip(items: Seq<TagV>, id: u8, rest: Seq<u8>, depth: int)
    requires
        items.len() <= 0x7fff_ffff,
        tags_valid(items, id),
        tags_invertible(items),
        0 <= depth,
        depth + tags_height(items) <= 512,
    ensures
        parse_elems(id, tags_wire(items) + rest, items.len() as int, depth)
            matches ElemsParse::EDone { items: items2, used, cost } && items2 == items && used
            == tags_wire(items).len(),
    decreases items, 2int,
{
    if items.len() == 0 {
        assert(tags_wire(items) =~= Seq::<u8>::empty());
    } else {
        let head = items[0];
        let tail = items.skip(1);
        let b = tags_wire(items) + rest;
        assert(b =~= tag_wire(head) + (tags_wire(tail) + rest));
        lemma_tags_height_at(items, 0);
        lemma_tag_roundtrip(head, tags_wire(tail) + rest, depth);
        assert(b.skip(tag_wire(head).len() as int) =~= tags_wire(tail) + rest);
        assert(tags_height(tail) <= tags_height(items));
        lemma_elems_roundtrip(tail, id, rest, depth);
        assert(seq![head] + tail =~= items);
    }
}

/// Scanning a compound body whose keys are fresh for the accumulated
/// mapping appends the entries in order.
#[verifier::rlimit(100)]
pub proof fn lemma_compound_roundtrip(
    entries: Seq<(Seq<char>, TagV)>,
    acc: Seq<(Seq<char>, TagV)>,
    rest: Seq<u8>,
    depth: int,
)
    requires
        compound_keys_unique(entries),
        entries_valid(entries),
        entries_invertible(entries),
        forall|i: int, j: int|
            0 <= i < acc.len() && 0 <= j < entries.len() ==> (#[trigger] acc[i]).0 != (
            #[trigger] entries[j]).0,
        0 <= depth,
        depth + entries_height(entries) <= 512,
    ensures
        parse_compound(compound_wire(entries) + rest, depth, acc) matches CompParse::CDone {
            entries: e2,
            used,
            cost,
        } && e2 == acc + entries && used == compound_wire(entries).len(),
    decreases entries, 2int,
{
    let b = compound_wire(entries) + rest;
    if entries.len() == 0 {
        assert(b[0] == 0);
        assert(acc + entries =~= acc);
    } else {
        let e = entries[0];
        let tail = entries.skip(1);
        let eid = spec_tag_id(e.1);
        lemma_tag_id_zero(e.1);
        assert(eid != 0);
        assert(b[0] == eid);
        let key_wire = nbt_str_wire(e.0);
        let val_wire = tag_wire(e.1);
        let tail_bytes = compound_wire(tail) + rest;
        assert(b.skip(1) =~= key_wire + (val_wire + tail_bytes));
        lemma_str_roundtrip(e.0, val_wire + tail_bytes);
        let kused = key_wire.len() as int;
        assert(b.skip(1).skip(kused) =~= val_wire + tail_bytes);
        assert(b.skip(1 + kused) =~= val_wire + tail_bytes);
        lemma_entries_height_at(entries, 0);
        lemma_tag_roundtrip(e.1, tail_bytes, depth);
        let vused = val_wire.len() as int;
        assert(b.skip(1 + kused).skip(vused) =~= tail_bytes);
        assert(b.skip(1 + kused + vused) =~= tail_bytes);
        assert(forall|i: int| 0 <= i < acc.len() ==> (#[trigger] acc[i]).0 != e.0);
        assert(!(exists|i: int| 0 <= i < acc.len() && (#[trigger] acc[i]).0 == e.0));
        let acc2 = spec_compound_put(acc, e.0, e.1);
        assert(acc2 =~= acc.push(e));
        assert(entries_height(tail) <= entries_height(entries));
        assert forall|i: int, j: int|
            0 <= i < acc2.len() && 0 <= j < tail.len() implies (#[trigger] acc2[i]).0 != (
        #[trigger] tail[j]).0 by {
            assert(tail[j] == entries[j + 1]);
            if i < acc.len() {
                assert(acc2[i] == acc[i]);
            } else {
                assert(acc2[i] == e);
                assert(entries[0].0 != entries[j + 1].0);
            }
        }
        lemma_compound_roundtrip(tail, acc2, rest, depth);
        assert(acc.push(e) + tail =~= acc + entries);
    }
}


/// A chain of `k` lists nested inside one another, ending in a byte tag.
pub open spec fn nested_list(k: nat) -> TagV
    decreases k,
{
    if k == 0 {
        TagV::Byte(0)
    } else {
        TagV::List(
            spec_tag_id(nested_list((k - 1) as nat)),
            seq![nested_list((k - 1) as nat)],
        )
    }
}

/// A nesting chain is valid and invertible, and its height is its length.
pub proof fn lemma_nested_list_wf(k: nat)
    ensures
        tag_valid(nested_list(k)),
        tag_invertible(nested_list(k)),
        tag_height(nested_list(k)) == k,
    decreases k,
{
    if k > 0 {
        lemma_nested_list_wf((k - 1) as nat);
        let inner = nested_list((k - 1) as nat);
        assert(nested_list(k) == TagV::List(spec_tag_id(inner), seq![inner]));
        assert(seq![inner].skip(1) =~= Seq::<TagV>::empty());
        assert(seq![inner][0] == inner);
        assert(tags_valid(seq![inner].skip(1), spec_tag_id(inner)));
        assert(tags_valid(seq![inner], spec_tag_id(inner)));
        assert(tags_invertible(seq![inner].skip(1)));
        assert(tags_invertible(seq![inner]));
        assert(tags_height(seq![inner].skip(1)) == 0);
        assert(tags_height(seq![inner]) == tag_height(inner));
    }
}

/// A nesting chain that would exceed the depth cap is rejected with the
/// depth-exceeded error before any of its body is taken apart.
pub proof fn lemma_nested_list_too_deep(k: nat, rest: Seq<u8>, depth: int)
    requires
        1 <= k,
        0 <= depth,
        depth + k > 512,
    ensures
        parse_tag(
            spec_tag_id(nested_list(k)),
            tag_wire(nested_list(k)) + rest,
            depth,
        ) matches NbtParse::Bad { kind } && kind == ErrorType::DepthExceeded,
    decreases k,
{
    let t = nested_list(k);
    let inner = nested_list((k - 1) as nat);
    let b = tag_wire(t) + rest;
    if depth >= 512 {
    } else {
        assert(k >= 2);
        lemma_pow256_values();
        lemma_be_bytes_len(1nat, 4);
        lemma_be_roundtrip(1nat, 4);
        assert(t == TagV::List(spec_tag_id(inner), seq![inner]));
        assert(seq![inner].len() == 1);
        assert(tag_wire(t) == seq![spec_tag_id(inner)] + spec_i32_be(1) + tags_wire(seq![inner]));
        assert(b[0] == spec_tag_id(inner));
        assert(spec_tag_id(inner) == 9);
        assert(b.skip(1).take(4) =~= be_bytes(1nat, 4));
        assert(seq![inner].skip(1) =~= Seq::<TagV>::empty());
        assert(tags_wire(seq![inner].skip(1)) =~= Seq::<u8>::empty());
        assert(seq![inner][0] == inner);
        assert(tags_wire(seq![inner]) =~= tag_wire(inner) + Seq::<u8>::empty());
        assert(b.skip(5) =~= tag_wire(inner) + (Seq::<u8>::empty() + rest));
        assert(tag_wire(inner) + (Seq::<u8>::empty() + rest) =~= tag_wire(inner) + rest);
        lemma_nested_list_too_deep((k - 1) as nat, rest, depth + 1);
    }
}

/// The depth cap is exact: a chain of exactly 512 nested lists decodes, and
/// one of 513 fails with the depth-exceeded error.
pub proof fn lemma_depth_cap(rest: Seq<u8>)
    ensures
        parse_tag(
            spec_tag_id(nested_list(512)),
            tag_wire(nested_list(512)) + rest,
            0,
        ) matches NbtParse::Done { t, used, cost } && t == nested_list(512),
        parse_tag(
            spec_tag_id(nested_list(513)),
            tag_wire(nested_list(513)) + rest,
            0,
        ) matches NbtParse::Bad { kind } && kind == ErrorType::DepthExceeded,
{
    lemma_nested_list_wf(512);
    lemma_tag_roundtrip(nested_list(512), rest, 0);
    lemma_nested_list_too_deep(513, rest, 0);
}

} // verus!
