//! The header record (`@HD`) of a SAM header: its fields, and the format version among them.
//!
//! A record value is a list of fields, each `\t`, a two-character tag, `:` and a non-empty
//! value running to the next tab. The `VN` field holds the version, `major.minor`; every other
//! field is kept as it is, in order.

use indexmap::IndexMap;
use vstd::prelude::*;
use vstd::slice::slice_subrange;

verus! {

#[verifier::external_type_specification]
#[verifier::external_body]
#[verifier::reject_recursive_types(K)]
#[verifier::reject_recursive_types(V)]
#[verifier::reject_recursive_types(S)]
pub struct ExIndexMap<K, V, S>(IndexMap<K, V, S>);

/// The fields that a map of other fields holds: each tag with its value, in insertion order.
pub uninterp spec fn other_entries(m: IndexMap<(u8, u8), Vec<u8>>) -> Seq<((u8, u8), Seq<u8>)>;

/// Relies on `IndexMap::new`: a new map is empty.
#[verifier::external_body]
fn new_other_fields() -> (r: IndexMap<(u8, u8), Vec<u8>>)
    ensures
        other_entries(r) == Seq::<((u8, u8), Seq<u8>)>::empty(),
{
    IndexMap::new()
}

/// Relies on `IndexMap::insert`: where the key is present its value is replaced in place and
/// the old value returned; otherwise the pair is added last and `None` returned.
#[verifier::external_body]
fn insert_other_field(m: &mut IndexMap<(u8, u8), Vec<u8>>, key: (u8, u8), value: Vec<u8>) -> (r:
    Option<Vec<u8>>)
    ensures
        r is Some <==> key_present(other_entries(*old(m)), key),
        key_present(other_entries(*old(m)), key) ==> other_entries(*final(m)) == other_entries(
            *old(m),
        ).update(key_index(other_entries(*old(m)), key), (key, value@)),
        !key_present(other_entries(*old(m)), key) ==> other_entries(*final(m)) == other_entries(
            *old(m),
        ).push((key, value@)),
{
    m.insert(key, value)
}

/// Relies on `lexical_core::parse::<u32>`: it accepts an optional `+` followed by one or more
/// ASCII digits whose value fits in 32 bits, and gives that value.
#[verifier::external_body]
fn parse_u32(s: &[u8]) -> (r: Option<u32>)
    ensures
        r == lexical_u32(s@),
{
    lexical_core::parse::<u32>(s).ok()
}

/// Whether `key` is the tag of an entry.
pub open spec fn key_present(entries: Seq<((u8, u8), Seq<u8>)>, key: (u8, u8)) -> bool {
    exists|i: int| 0 <= i < entries.len() && entries[i].0 == key
}

/// The position of the entry whose tag is `key`.
pub open spec fn key_index(entries: Seq<((u8, u8), Seq<u8>)>, key: (u8, u8)) -> int {
    choose|i: int| 0 <= i < entries.len() && entries[i].0 == key
}

/// The value of a run of decimal digits.
pub open spec fn decimal_value(s: Seq<u8>) -> int
    decreases s.len(),
{
    if s.len() == 0 {
        0
    } else {
        decimal_value(s.drop_last()) * 10 + (s.last() - 0x30)
    }
}

/// An unsigned 32-bit integer written in decimal, with an optional leading `+`.
pub open spec fn lexical_u32(s: Seq<u8>) -> Option<u32> {
    let d = if s.len() > 0 && s[0] == 0x2b {
        s.drop_first()
    } else {
        s
    };
    if d.len() > 0 && (forall|i: int| 0 <= i < d.len() ==> 0x30 <= #[trigger] d[i] <= 0x39)
        && decimal_value(d) <= u32::MAX {
        Some(decimal_value(d) as u32)
    } else {
        None
    }
}

/// A field tag: the version tag `VN`, or any other.
#[derive(Clone, Copy, Debug, Eq, PartialEq, Structural)]
pub enum Tag {
    /// `VN`.
    Version,
    /// Another tag, as its two characters.
    Other(u8, u8),
}

/// The tag named by two characters.
pub open spec fn tag_of(a: u8, b: u8) -> Tag {
    if a == 0x56 && b == 0x4e {
        Tag::Version
    } else {
        Tag::Other(a, b)
    }
}

/// A SAM format version.
#[derive(Clone, Copy, Debug, Eq, PartialEq, Structural)]
pub struct Version {
    pub major: u32,
    pub minor: u32,
}

impl Version {
    /// The version `major.minor`.
    pub fn new(major: u32, minor: u32) -> (r: Version)
        ensures
            r == (Version { major, minor }),
    {
        Version { major, minor }
    }
}

/// A parsed header record: its version and its other fields.
#[derive(Debug, Eq, PartialEq)]
pub struct HeaderRecord {
    version: Version,
    other_fields: IndexMap<(u8, u8), Vec<u8>>,
}

impl HeaderRecord {
    /// The version.
    pub closed spec fn version_spec(&self) -> Version {
        self.version
    }

    /// The other fields, in order.
    pub closed spec fn others_spec(&self) -> Seq<((u8, u8), Seq<u8>)> {
        other_entries(self.other_fields)
    }

    /// A header record with a version and no other fields.
    pub fn new(version: Version) -> (r: HeaderRecord)
        ensures
            r.version_spec() == version,
            r.others_spec() == Seq::<((u8, u8), Seq<u8>)>::empty(),
    {
        HeaderRecord { version, other_fields: new_other_fields() }
    }

    /// The version.
    pub fn version(&self) -> (r: Version)
        ensures
            r == self.version_spec(),
    {
        self.version
    }

    /// The other fields.
    pub fn other_fields(&self) -> (r: &IndexMap<(u8, u8), Vec<u8>>)
        ensures
            other_entries(*r) == self.others_spec(),
    {
        &self.other_fields
    }
}

/// How parsing treats a tag given twice.
#[derive(Clone, Copy, Debug, Eq, PartialEq, Structural)]
pub struct Context {
    allow_duplicate_tags: bool,
}

impl Context {
    /// A context that allows duplicate tags (the last value wins) or refuses them.
    pub fn new(allow_duplicate_tags: bool) -> (r: Context)
        ensures
            r.allows_duplicates() == allow_duplicate_tags,
    {
        Context { allow_duplicate_tags }
    }

    /// Whether duplicate tags are allowed.
    pub closed spec fn allows_duplicates(&self) -> bool {
        self.allow_duplicate_tags
    }

    /// Whether duplicate tags are allowed.
    pub fn allow_duplicate_tags(&self) -> (r: bool)
        ensures
            r == self.allows_duplicates(),
    {
        self.allow_duplicate_tags
    }
}

impl Default for Context {
    /// Duplicate tags are refused.
    fn default() -> (r: Context)
        ensures
            !r.allows_duplicates(),
    {
        Context { allow_duplicate_tags: false }
    }
}

/// An error in the framing of a field.
#[derive(Clone, Copy, Debug, Eq, PartialEq, Structural)]
pub enum FieldError {
    /// The input ended inside a field.
    UnexpectedEof,
    /// A field does not start with a tab.
    InvalidDelimiter,
    /// A tag is not followed by `:`.
    InvalidSeparator,
}

/// An error in a field tag.
#[derive(Clone, Copy, Debug, Eq, PartialEq, Structural)]
pub enum TagError {
    /// The input ended inside the tag.
    UnexpectedEof,
    /// The tag is not a letter followed by a letter or digit.
    Invalid,
}

/// An error in a field value.
#[derive(Clone, Copy, Debug, Eq, PartialEq, Structural)]
pub enum ValueError {
    /// The value is empty.
    Invalid,
}

/// An error returned when a SAM header header record value fails to parse.
#[derive(Clone, Copy, Debug, Eq, PartialEq, Structural)]
pub enum ParseError {
    InvalidField(FieldError),
    InvalidTag(TagError),
    InvalidValue(ValueError),
    MissingVersion,
    InvalidVersion,
    InvalidOther(Tag, ValueError),
    DuplicateTag(Tag),
}

/// Whether a byte is an ASCII letter.
pub open spec fn is_alpha(b: u8) -> bool {
    (0x41 <= b <= 0x5a) || (0x61 <= b <= 0x7a)
}

/// The length of the value at the start of `s`: up to the first tab.
pub open spec fn value_len(s: Seq<u8>) -> nat
    decreases s.len(),
{
    if s.len() == 0 || s[0] == 0x09 {
        0
    } else {
        1 + value_len(s.drop_first())
    }
}

/// A value is no longer than what holds it.
proof fn lemma_value_len_bound(s: Seq<u8>)
    ensures
        value_len(s) <= s.len(),
    decreases s.len(),
{
    if s.len() > 0 && s[0] != 0x09 {
        lemma_value_len_bound(s.drop_first());
    }
}

/// The first field of a non-empty `s`: its tag, its value and what follows it.
pub open spec fn next_field(s: Seq<u8>) -> Result<(Tag, Seq<u8>, Seq<u8>), ParseError>
    recommends
        s.len() > 0,
{
    if s[0] != 0x09 {
        Err(ParseError::InvalidField(FieldError::InvalidDelimiter))
    } else if s.len() < 3 {
        Err(ParseError::InvalidTag(TagError::UnexpectedEof))
    } else if !(is_alpha(s[1]) && (is_alpha(s[2]) || (0x30 <= s[2] <= 0x39))) {
        Err(ParseError::InvalidTag(TagError::Invalid))
    } else if s.len() < 4 {
        Err(ParseError::InvalidField(FieldError::UnexpectedEof))
    } else if s[3] != 0x3a {
        Err(ParseError::InvalidField(FieldError::InvalidSeparator))
    } else {
        let t = s.subrange(4, s.len() as int);
        let n = value_len(t) as int;
        let tag = tag_of(s[1], s[2]);
        if n == 0 {
            if tag == Tag::Version {
                Err(ParseError::InvalidValue(ValueError::Invalid))
            } else {
                Err(ParseError::InvalidOther(tag, ValueError::Invalid))
            }
        } else {
            Ok((tag, t.subrange(0, n), t.subrange(n, t.len() as int)))
        }
    }
}

/// The position of the first `.` in `s`, or its length.
pub open spec fn dot_position(s: Seq<u8>) -> nat
    decreases s.len(),
{
    if s.len() == 0 || s[0] == 0x2e {
        0
    } else {
        1 + dot_position(s.drop_first())
    }
}

/// The version that a `VN` value names: `major.minor`, split at the first `.`.
pub open spec fn version_of(s: Seq<u8>) -> Option<Version> {
    let i = dot_position(s) as int;
    if i == s.len() {
        None
    } else {
        match (lexical_u32(s.subrange(0, i)), lexical_u32(s.subrange(i + 1, s.len() as int))) {
            (Some(major), Some(minor)) => Some(Version { major, minor }),
            _ => None,
        }
    }
}

/// What parsing the fields `s` gives, having seen the version `version` and the other fields
/// `others` so far.
pub open spec fn parse_fields(
    s: Seq<u8>,
    allow: bool,
    version: Option<Version>,
    others: Seq<((u8, u8), Seq<u8>)>,
) -> Result<(Version, Seq<((u8, u8), Seq<u8>)>), ParseError>
    decreases s.len(),
{
    if s.len() == 0 {
        match version {
            Some(v) => Ok((v, others)),
            None => Err(ParseError::MissingVersion),
        }
    } else {
        match next_field(s) {
            Err(e) => Err(e),
            Ok((tag, value, rest)) => {
                if rest.len() >= s.len() {
                    Err(ParseError::MissingVersion)
                } else {
                    match tag {
                        Tag::Version => match version_of(value) {
                            None => Err(ParseError::InvalidVersion),
                            Some(v) => if version is Some && !allow {
                                Err(ParseError::DuplicateTag(Tag::Version))
                            } else {
                                parse_fields(rest, allow, Some(v), others)
                            },
                        },
                        Tag::Other(a, b) => if key_present(others, (a, b)) {
                            if !allow {
                                Err(ParseError::DuplicateTag(tag))
                            } else {
                                parse_fields(
                                    rest,
                                    allow,
                                    version,
                                    others.update(key_index(others, (a, b)), ((a, b), value)),
                                )
                            }
                        } else {
                            parse_fields(rest, allow, version, others.push(((a, b), value)))
                        },
                    }
                }
            },
        }
    }
}

/// Consumes the tab that starts a field.
pub fn consume_delimiter(src: &mut &[u8]) -> (r: Result<(), FieldError>)
    ensures
        old(src)@.len() == 0 ==> r == Err::<(), FieldError>(FieldError::UnexpectedEof),
        old(src)@.len() > 0 && old(src)@[0] != 0x09 ==> r == Err::<(), FieldError>(
            FieldError::InvalidDelimiter,
        ),
        old(src)@.len() > 0 && old(src)@[0] == 0x09 ==> r is Ok && final(src)@ == old(
            src,
        )@.drop_first(),
{
    let s: &[u8] = *src;
    if s.len() == 0 {
        Err(FieldError::UnexpectedEof)
    } else if s[0] != 0x09 {
        Err(FieldError::InvalidDelimiter)
    } else {
        *src = slice_subrange(s, 1, s.len());
        assert(src@ =~= s@.drop_first());
        Ok(())
    }
}

/// Consumes the `:` between a tag and its value.
pub fn consume_separator(src: &mut &[u8]) -> (r: Result<(), FieldError>)
    ensures
        old(src)@.len() == 0 ==> r == Err::<(), FieldError>(FieldError::UnexpectedEof),
        old(src)@.len() > 0 && old(src)@[0] != 0x3a ==> r == Err::<(), FieldError>(
            FieldError::InvalidSeparator,
        ),
        old(src)@.len() > 0 && old(src)@[0] == 0x3a ==> r is Ok && final(src)@ == old(
            src,
        )@.drop_first(),
{
    let s: &[u8] = *src;
    if s.len() == 0 {
        Err(FieldError::UnexpectedEof)
    } else if s[0] != 0x3a {
        Err(FieldError::InvalidSeparator)
    } else {
        *src = slice_subrange(s, 1, s.len());
        assert(src@ =~= s@.drop_first());
        Ok(())
    }
}

/// Parses a two-character tag.
pub fn parse_tag(src: &mut &[u8]) -> (r: Result<Tag, TagError>)
    ensures
        old(src)@.len() < 2 ==> r == Err::<Tag, TagError>(TagError::UnexpectedEof),
        old(src)@.len() >= 2 ==> {
            let a = old(src)@[0];
            let b = old(src)@[1];
            if is_alpha(a) && (is_alpha(b) || (0x30 <= b <= 0x39)) {
                r == Ok::<Tag, TagError>(tag_of(a, b)) && final(src)@ == old(src)@.subrange(
                    2,
                    old(src)@.len() as int,
                )
            } else {
                r == Err::<Tag, TagError>(TagError::Invalid)
            }
        },
{
    let s: &[u8] = *src;
    if s.len() < 2 {
        return Err(TagError::UnexpectedEof);
    }
    let a = s[0];
    let b = s[1];
    let a_alpha = (0x41 <= a && a <= 0x5a) || (0x61 <= a && a <= 0x7a);
    let b_alnum = (0x41 <= b && b <= 0x5a) || (0x61 <= b && b <= 0x7a) || (0x30 <= b && b
        <= 0x39);
    if !(a_alpha && b_alnum) {
        return Err(TagError::Invalid);
    }
    *src = slice_subrange(s, 2, s.len());
    if a == 0x56 && b == 0x4e {
        Ok(Tag::Version)
    } else {
        Ok(Tag::Other(a, b))
    }
}

/// Parses a field value: the bytes up to the next tab, which must not be empty.
pub fn parse_value<'a>(src: &mut &'a [u8]) -> (r: Result<&'a [u8], ValueError>)
    ensures
        value_len(old(src)@) <= old(src)@.len(),
        value_len(old(src)@) == 0 ==> r == Err::<&'a [u8], ValueError>(ValueError::Invalid),
        value_len(old(src)@) > 0 ==> (r matches Ok(v) && v@ == old(src)@.subrange(
            0,
            value_len(old(src)@) as int,
        ) && final(src)@ == old(src)@.subrange(
            value_len(old(src)@) as int,
            old(src)@.len() as int,
        )),
{
    let s: &'a [u8] = *src;
    let mut i: usize = 0;
    assert(s@.subrange(0, s@.len() as int) =~= s@);
    while i < s.len() && s[i] != 0x09
        invariant
            i <= s@.len(),
            value_len(s@) == i + value_len(s@.subrange(i as int, s@.len() as int)),
        decreases s@.len() - i,
    {
        assert(s@.subrange(i as int, s@.len() as int).drop_first() =~= s@.subrange(
            i + 1,
            s@.len() as int,
        ));
        i = i + 1;
    }
    assert(value_len(s@.subrange(i as int, s@.len() as int)) == 0);
    proof {
        lemma_value_len_bound(s@);
    }
    if i == 0 {
        return Err(ValueError::Invalid);
    }
    let v = slice_subrange(s, 0, i);
    *src = slice_subrange(s, i, s.len());
    Ok(v)
}

/// The position of the first `.` in `s`, or its length.
fn find_dot(s: &[u8]) -> (r: usize)
    ensures
        r == dot_position(s@),
        r <= s@.len(),
{
    let mut i: usize = 0;
    assert(s@.subrange(0, s@.len() as int) =~= s@);
    while i < s.len() && s[i] != 0x2e
        invariant
            i <= s@.len(),
            dot_position(s@) == i + dot_position(s@.subrange(i as int, s@.len() as int)),
        decreases s@.len() - i,
    {
        assert(s@.subrange(i as int, s@.len() as int).drop_first() =~= s@.subrange(
            i + 1,
            s@.len() as int,
        ));
        i = i + 1;
    }
    assert(dot_position(s@.subrange(i as int, s@.len() as int)) == 0);
    i
}

/// Parses the value of the `VN` field.
pub fn parse_version(src: &mut &[u8]) -> (r: Result<Version, ParseError>)
    ensures
        value_len(old(src)@) <= old(src)@.len(),
        value_len(old(src)@) == 0 ==> r == Err::<Version, ParseError>(
            ParseError::InvalidValue(ValueError::Invalid),
        ),
        value_len(old(src)@) > 0 ==> {
            let n = value_len(old(src)@) as int;
            &&& final(src)@ == old(src)@.subrange(n, old(src)@.len() as int)
            &&& match version_of(old(src)@.subrange(0, n)) {
                Some(v) => r == Ok::<Version, ParseError>(v),
                None => r == Err::<Version, ParseError>(ParseError::InvalidVersion),
            }
        },
{
    proof {
        lemma_value_len_bound(src@);
    }
    let buf = match parse_value(src) {
        Ok(b) => b,
        Err(e) => return Err(ParseError::InvalidValue(e)),
    };
    let i = find_dot(buf);
    if i == buf.len() {
        return Err(ParseError::InvalidVersion);
    }
    let a = slice_subrange(buf, 0, i);
    let b = slice_subrange(buf, i + 1, buf.len());
    let major = match parse_u32(a) {
        Some(n) => n,
        None => return Err(ParseError::InvalidVersion),
    };
    let minor = match parse_u32(b) {
        Some(n) => n,
        None => return Err(ParseError::InvalidVersion),
    };
    Ok(Version::new(major, minor))
}

/// Parses the value of a field other than `VN`.
pub fn parse_other(src: &mut &[u8], tag: Tag) -> (r: Result<Vec<u8>, ParseError>)
    ensures
        value_len(old(src)@) <= old(src)@.len(),
        value_len(old(src)@) == 0 ==> r == Err::<Vec<u8>, ParseError>(
            ParseError::InvalidOther(tag, ValueError::Invalid),
        ),
        value_len(old(src)@) > 0 ==> {
            let n = value_len(old(src)@) as int;
            &&& final(src)@ == old(src)@.subrange(n, old(src)@.len() as int)
            &&& (r matches Ok(v) && v@ == old(src)@.subrange(0, n))
        },
{
    proof {
        lemma_value_len_bound(src@);
    }
    match parse_value(src) {
        Ok(b) => {
            let mut v: Vec<u8> = Vec::new();
            let mut i: usize = 0;
            while i < b.len()
                invariant
                    i <= b@.len(),
                    v@ == b@.subrange(0, i as int),
                decreases b@.len() - i,
            {
                v.push(b[i]);
                i = i + 1;
                assert(v@ =~= b@.subrange(0, i as int));
            }
            assert(b@.subrange(0, b@.len() as int) =~= b@);
            Ok(v)
        },
        Err(e) => Err(ParseError::InvalidOther(tag, e)),
    }
}

/// Stores the version; a second one is an error unless duplicate tags are allowed.
pub fn try_replace(option: &mut Option<Version>, ctx: &Context, tag: Tag, value: Version) -> (r:
    Result<(), ParseError>)
    ensures
        *final(option) == Some(value),
        r is Err <==> *old(option) is Some && !ctx.allows_duplicates(),
        r matches Err(e) ==> e == ParseError::DuplicateTag(tag),
{
    let had_value = option.is_some();
    *option = Some(value);
    if had_value && !ctx.allow_duplicate_tags() {
        Err(ParseError::DuplicateTag(tag))
    } else {
        Ok(())
    }
}

/// Stores an other field; a repeated tag is an error unless duplicate tags are allowed.
pub fn try_insert(
    other_fields: &mut IndexMap<(u8, u8), Vec<u8>>,
    ctx: &Context,
    a: u8,
    b: u8,
    value: Vec<u8>,
) -> (r: Result<(), ParseError>)
    ensures
        key_present(other_entries(*old(other_fields)), (a, b)) ==> other_entries(
            *final(other_fields),
        ) == other_entries(*old(other_fields)).update(
            key_index(other_entries(*old(other_fields)), (a, b)),
            ((a, b), value@),
        ),
        !key_present(other_entries(*old(other_fields)), (a, b)) ==> other_entries(
            *final(other_fields),
        ) == other_entries(*old(other_fields)).push(((a, b), value@)),
        r is Err <==> key_present(other_entries(*old(other_fields)), (a, b))
            && !ctx.allows_duplicates(),
        r matches Err(e) ==> e == ParseError::DuplicateTag(Tag::Other(a, b)),
{
    let previous = insert_other_field(other_fields, (a, b), value);
    if previous.is_some() && !ctx.allow_duplicate_tags() {
        Err(ParseError::DuplicateTag(Tag::Other(a, b)))
    } else {
        Ok(())
    }
}

/// Parses the value of a header record: its fields, each `\t`, tag, `:` and value.
#[verifier::rlimit(40)]
pub fn parse_header(src: &mut &[u8], ctx: &Context) -> (r: Result<HeaderRecord, ParseError>)
    ensures
        match parse_fields(
            old(src)@,
            ctx.allows_duplicates(),
            None,
            Seq::<((u8, u8), Seq<u8>)>::empty(),
        ) {
            Ok((v, others)) => (r matches Ok(m) && m.version_spec() == v && m.others_spec()
                == others),
            Err(e) => r == Err::<HeaderRecord, ParseError>(e),
        },
{
    let ghost goal = parse_fields(
        src@,
        ctx.allows_duplicates(),
        None,
        Seq::<((u8, u8), Seq<u8>)>::empty(),
    );
    let mut version: Option<Version> = None;
    let mut other_fields = new_other_fields();
    while src.len() > 0
        invariant
            goal == parse_fields(
                old(src)@,
                ctx.allows_duplicates(),
                None,
                Seq::<((u8, u8), Seq<u8>)>::empty(),
            ),
            goal == parse_fields(
                src@,
                ctx.allows_duplicates(),
                version,
                other_entries(other_fields),
            ),
        decreases src@.len(),
    {
        let ghost s = src@;
        let ghost allow = ctx.allows_duplicates();
        let ghost entries = other_entries(other_fields);
        if let Err(e) = consume_delimiter(src) {
            assert(next_field(s) == Err::<(Tag, Seq<u8>, Seq<u8>), ParseError>(
                ParseError::InvalidField(e),
            ));
            return Err(ParseError::InvalidField(e));
        }
        let tag = match parse_tag(src) {
            Ok(t) => t,
            Err(e) => {
                assert(s.drop_first().len() >= 2 ==> s.drop_first()[0] == s[1]
                    && s.drop_first()[1] == s[2]);
                assert(next_field(s) == Err::<(Tag, Seq<u8>, Seq<u8>), ParseError>(
                    ParseError::InvalidTag(e),
                ));
                return Err(ParseError::InvalidTag(e));
            },
        };
        assert(tag == tag_of(s[1], s[2]));
        if let Err(e) = consume_separator(src) {
            assert(s.subrange(3, s.len() as int).len() > 0 ==> s.subrange(3, s.len() as int)[0]
                == s[3]);
            assert(next_field(s) == Err::<(Tag, Seq<u8>, Seq<u8>), ParseError>(
                ParseError::InvalidField(e),
            ));
            return Err(ParseError::InvalidField(e));
        }
        proof {
            assert(s.subrange(4, s.len() as int) =~= src@);
            lemma_value_len_bound(s.subrange(4, s.len() as int));
        }
        match tag {
            Tag::Version => {
                let v = match parse_version(src) {
                    Ok(v) => v,
                    Err(e) => return Err(e),
                };
                proof {
                    let t = s.subrange(4, s.len() as int);
                    let n = value_len(t) as int;
                    assert(t.subrange(n, t.len() as int) =~= src@);
                }
                if let Err(e) = try_replace(&mut version, ctx, Tag::Version, v) {
                    return Err(e);
                }
            },
            Tag::Other(a, b) => {
                let value = match parse_other(src, tag) {
                    Ok(value) => value,
                    Err(e) => return Err(e),
                };
                proof {
                    let t = s.subrange(4, s.len() as int);
                    let n = value_len(t) as int;
                    assert(t.subrange(n, t.len() as int) =~= src@);
                }
                if let Err(e) = try_insert(&mut other_fields, ctx, a, b, value) {
                    return Err(e);
                }
            },
        }
    }
    match version {
        Some(v) => Ok(HeaderRecord { version: v, other_fields }),
        None => Err(ParseError::MissingVersion),
    }
}

} // verus!
