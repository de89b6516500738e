use crate::bytes::{find_crlf, first_crlf, lemma_find_crlf, CRLF_LEN};
use crate::encoding::{decode_lossy, from_chars, str_eq, text_of, to_chars};
use crate::http::request::{Failure, HttpError};
use crate::text::{
    ascii_lower, first_index_of, has_no_upper, is_token, is_token_char, is_valid_char,
    lemma_first_index_of, lower_string, trim, trim_bounds,
};
use vstd::prelude::*;
use vstd::slice::slice_subrange;

verus! {

/// Whether the field at `i` is called `name`.
pub open spec fn name_at(fields: Seq<(Seq<char>, Seq<char>)>, name: Seq<char>, i: int) -> bool {
    0 <= i < fields.len() && fields[i].0 == name
}

/// Whether no field before `i` is called `name`.
pub open spec fn no_name_before(
    fields: Seq<(Seq<char>, Seq<char>)>,
    name: Seq<char>,
    i: int,
) -> bool {
    forall|j: int| 0 <= j < i ==> !name_at(fields, name, j)
}

/// Whether some field is called `name`.
pub open spec fn has_name(fields: Seq<(Seq<char>, Seq<char>)>, name: Seq<char>) -> bool {
    exists|i: int| name_at(fields, name, i)
}

/// Where the first field called `name` stands.
pub open spec fn position_of(fields: Seq<(Seq<char>, Seq<char>)>, name: Seq<char>) -> int {
    choose|i: int| name_at(fields, name, i) && no_name_before(fields, name, i)
}

/// The value bound to `name`, if any.
pub open spec fn value_of(fields: Seq<(Seq<char>, Seq<char>)>, name: Seq<char>) -> Option<
    Seq<char>,
> {
    if has_name(fields, name) {
        Some(fields[position_of(fields, name)].1)
    } else {
        None
    }
}

/// Whether no two fields share a name.
pub open spec fn names_distinct(fields: Seq<(Seq<char>, Seq<char>)>) -> bool {
    forall|i: int, j: int| 0 <= i < j < fields.len() ==> fields[i].0 != fields[j].0
}

/// The fields as a finite map from name to value.
pub open spec fn field_map(fields: Seq<(Seq<char>, Seq<char>)>) -> Map<Seq<char>, Seq<char>> {
    Map::new(|k: Seq<char>| has_name(fields, k), |k: Seq<char>| fields[position_of(fields, k)].1)
}

/// `fields` with `name` bound to `value`: in place where the name is bound
/// already, at the end where it is new.
pub open spec fn put(fields: Seq<(Seq<char>, Seq<char>)>, name: Seq<char>, value: Seq<char>) -> Seq<
    (Seq<char>, Seq<char>),
> {
    if has_name(fields, name) {
        fields.update(position_of(fields, name), (name, value))
    } else {
        fields.push((name, value))
    }
}

/// The separator between the values of a repeated field.
pub open spec fn separator() -> Seq<char> {
    seq![',', ' ']
}

/// `prev` and `value` combined into one field value.
pub open spec fn joined(prev: Seq<char>, value: Seq<char>) -> Seq<char> {
    if prev.len() == 0 {
        value
    } else {
        prev + separator() + value
    }
}

/// `fields` with `value` added to what `name` is bound to.
pub open spec fn put_joined(
    fields: Seq<(Seq<char>, Seq<char>)>,
    name: Seq<char>,
    value: Seq<char>,
) -> Seq<(Seq<char>, Seq<char>)> {
    match value_of(fields, name) {
        Some(prev) => put(fields, name, joined(prev, value)),
        None => put(fields, name, value),
    }
}

/// Below any field called `name` there is a first one.
proof fn lemma_least_name(fields: Seq<(Seq<char>, Seq<char>)>, name: Seq<char>, w: int)
    requires
        name_at(fields, name, w),
    ensures
        exists|i: int| name_at(fields, name, i) && no_name_before(fields, name, i),
    decreases w,
{
    if no_name_before(fields, name, w) {
    } else {
        let j = choose|j: int| 0 <= j < w && name_at(fields, name, j);
        lemma_least_name(fields, name, j);
    }
}

/// Where a name is bound, [`position_of`] is its first field.
pub proof fn lemma_position_of(fields: Seq<(Seq<char>, Seq<char>)>, name: Seq<char>)
    requires
        has_name(fields, name),
    ensures
        name_at(fields, name, position_of(fields, name)),
        no_name_before(fields, name, position_of(fields, name)),
{
    let w = choose|i: int| name_at(fields, name, i);
    lemma_least_name(fields, name, w);
}

/// A field called `name` with none before it is the first one.
pub proof fn lemma_position_is(fields: Seq<(Seq<char>, Seq<char>)>, name: Seq<char>, i: int)
    requires
        name_at(fields, name, i),
        no_name_before(fields, name, i),
    ensures
        has_name(fields, name),
        position_of(fields, name) == i,
{
    lemma_position_of(fields, name);
    let p = position_of(fields, name);
    if p < i {
        assert(!name_at(fields, name, p));
    }
    if i < p {
        assert(!name_at(fields, name, i));
    }
}

/// Binding a name keeps the names distinct, makes the name bound to the
/// value, and leaves every other name as it was.
pub proof fn lemma_put(
    fields: Seq<(Seq<char>, Seq<char>)>,
    name: Seq<char>,
    value: Seq<char>,
    other: Seq<char>,
)
    ensures
        names_distinct(fields) ==> names_distinct(put(fields, name, value)),
        value_of(put(fields, name, value), name) == Some(value),
        other != name ==> value_of(put(fields, name, value), other) == value_of(fields, other),
{
    let after = put(fields, name, value);
    if has_name(fields, name) {
        lemma_position_of(fields, name);
        let p = position_of(fields, name);
        assert(name_at(after, name, p));
        assert(no_name_before(after, name, p)) by {
            assert forall|j: int| 0 <= j < p implies !name_at(after, name, j) by {
                assert(!name_at(fields, name, j));
            }
        }
        lemma_position_is(after, name, p);
        if other != name {
            if has_name(fields, other) {
                lemma_position_of(fields, other);
                let q = position_of(fields, other);
                assert(name_at(after, other, q));
                assert(no_name_before(after, other, q)) by {
                    assert forall|j: int| 0 <= j < q implies !name_at(after, other, j) by {
                        assert(!name_at(fields, other, j));
                    }
                }
                lemma_position_is(after, other, q);
            } else {
                if has_name(after, other) {
                    let q = choose|i: int| name_at(after, other, i);
                    assert(name_at(fields, other, q));
                }
            }
        }
    } else {
        let p = fields.len() as int;
        assert(name_at(after, name, p));
        assert(no_name_before(after, name, p)) by {
            assert forall|j: int| 0 <= j < p implies !name_at(after, name, j) by {
                assert(!name_at(fields, name, j));
            }
        }
        lemma_position_is(after, name, p);
        if names_distinct(fields) {
            assert forall|i: int, j: int| 0 <= i < j < after.len() implies after[i].0
                != after[j].0 by {
                if j == p {
                    assert(!name_at(fields, name, i));
                }
            }
        }
        if other != name {
            if has_name(fields, other) {
                lemma_position_of(fields, other);
                let q = position_of(fields, other);
                assert(name_at(after, other, q));
                assert(no_name_before(after, other, q)) by {
                    assert forall|j: int| 0 <= j < q implies !name_at(after, other, j) by {
                        assert(!name_at(fields, other, j));
                    }
                }
                lemma_position_is(after, other, q);
            } else {
                if has_name(after, other) {
                    let q = choose|i: int| name_at(after, other, i);
                    assert(name_at(fields, other, q));
                }
            }
        }
    }
}

/// Binding a name in the fields binds it in the map.
pub proof fn lemma_put_map(fields: Seq<(Seq<char>, Seq<char>)>, name: Seq<char>, value: Seq<char>)
    ensures
        field_map(put(fields, name, value)) == field_map(fields).insert(name, value),
{
    let after = put(fields, name, value);
    let want = field_map(fields).insert(name, value);
    assert forall|k: Seq<char>| #[trigger] field_map(after).dom().contains(k) == want.dom().contains(k) by {
        lemma_put(fields, name, value, k);
    }
    assert forall|k: Seq<char>| #[trigger] field_map(after).dom().contains(k) implies field_map(after)[k] == want[k] by {
        lemma_put(fields, name, value, k);
    }
    assert(field_map(after) =~= field_map(fields).insert(name, value));
}


/// The one name whose value may not be empty.
pub open spec fn host_name() -> Seq<char> {
    seq!['h', 'o', 's', 't']
}

/// The field that a header line holds: the name folded to lower case and
/// the trimmed value, or why the line is refused.
///
/// The line is trimmed and split at its first colon. Every character before
/// the colon must be a token character, so a name with a space is refused.
/// A line that spells the name `host` in lower case must give it a value.
pub open spec fn field_of_line(line: Seq<char>) -> Result<(Seq<char>, Seq<char>), Failure> {
    let t = trim(line);
    let colon = first_index_of(t, ':');
    if colon >= t.len() {
        Err(Failure::MalformedHeader)
    } else {
        let key = t.subrange(0, colon);
        let value = trim(t.subrange(colon + 1, t.len() as int));
        if !is_token(key) {
            Err(Failure::MalformedHeader)
        } else if key == host_name() && value.len() == 0 {
            Err(Failure::InvalidHeaders)
        } else {
            Ok((ascii_lower(key), value))
        }
    }
}

/// `fields` after the header line `line` was taken in.
#[verifier::opaque]
pub open spec fn with_line(fields: Seq<(Seq<char>, Seq<char>)>, line: Seq<char>) -> Result<
    Seq<(Seq<char>, Seq<char>)>,
    Failure,
> {
    match field_of_line(line) {
        Ok(field) => Ok(put_joined(fields, field.0, field.1)),
        Err(e) => Err(e),
    }
}

/// How far a header block was read.
pub enum BlockStatus {
    /// Every complete line was taken in; the blank line has not come yet.
    Partial,
    /// The blank line that ends the block was reached.
    Complete,
    /// A line was refused.
    Failed(Failure),
}

/// What reading a header block gives.
pub struct BlockParse {
    /// The fields after the lines that were taken in.
    pub fields: Seq<(Seq<char>, Seq<char>)>,
    /// The number of octets that were consumed.
    pub consumed: int,
    /// How far the block was read.
    pub status: BlockStatus,
}

/// Reads the header block at the start of `data` into `fields`.
///
/// Only lines that end in `\r\n` are read. They are taken in one after the
/// other, each decoded as text, until one is empty, which ends the block, or
/// one is refused. An unfinished line at the end is left for the next call.
pub open spec fn parse_block(fields: Seq<(Seq<char>, Seq<char>)>, data: Seq<u8>) -> BlockParse
    decreases data.len(),
{
    match find_crlf(data) {
        None => BlockParse { fields, consumed: 0, status: BlockStatus::Partial },
        Some(end) => if end == 0 {
            BlockParse { fields, consumed: 2, status: BlockStatus::Complete }
        } else {
            match with_line(fields, text_of(data.subrange(0, end))) {
                Err(e) => BlockParse { fields, consumed: 0, status: BlockStatus::Failed(e) },
                Ok(next) => {
                    proof {
                        lemma_find_crlf(data);
                    }
                    let rest = parse_block(next, data.subrange(end + 2, data.len() as int));
                    BlockParse {
                        fields: rest.fields,
                        consumed: end + 2 + rest.consumed,
                        status: rest.status,
                    }
                },
            }
        },
    }
}

/// Whether the separator `", "` stands at `i` in `value`.
pub open spec fn separator_at(value: Seq<char>, i: int) -> bool {
    0 <= i && i + 1 < value.len() && value[i] == ',' && value[i + 1] == ' '
}

/// Whether `value` holds the separator `", "`.
pub open spec fn has_separator(value: Seq<char>) -> bool {
    exists|i: int| separator_at(value, i)
}

/// Whether `name` is bound to a value that lists more than one.
pub open spec fn is_repeated(fields: Seq<(Seq<char>, Seq<char>)>, name: Seq<char>) -> bool {
    match value_of(fields, name) {
        Some(value) => has_separator(value),
        None => false,
    }
}

/// Whether one of the fields that a peer may send only once, `host`,
/// `content-length`, `transfer-encoding` and `connection`, lists more than
/// one value.
pub open spec fn critical_repeated(fields: Seq<(Seq<char>, Seq<char>)>) -> bool {
    is_repeated(fields, "host"@) || is_repeated(fields, "content-length"@) || is_repeated(
        fields,
        "transfer-encoding"@,
    ) || is_repeated(fields, "connection"@)
}

/// Whether every name is made of token characters, none of them an upper
/// case letter.
pub open spec fn names_canonical(fields: Seq<(Seq<char>, Seq<char>)>) -> bool {
    forall|i: int|
        0 <= i < fields.len() ==> is_token((#[trigger] fields[i]).0) && has_no_upper(fields[i].0)
}

/// `parse` with `by` more octets counted as consumed.
pub open spec fn advanced(parse: BlockParse, by: int) -> BlockParse {
    BlockParse { fields: parse.fields, consumed: parse.consumed + by, status: parse.status }
}

/// Header fields: each name bound to one value, kept in the order in which
/// the names were first bound.
///
/// A repeated field is one binding whose value lists the single values,
/// separated by `", "`.
#[derive(Debug, Clone)]
pub struct Headers {
    entries: Vec<(String, String)>,
}

impl View for Headers {
    type V = Map<Seq<char>, Seq<char>>;

    /// The fields as a map from name to value.
    open spec fn view(&self) -> Map<Seq<char>, Seq<char>> {
        field_map(self.fields())
    }
}

impl Default for Headers {
    fn default() -> (h: Headers)
        ensures
            h.fields() == Seq::<(Seq<char>, Seq<char>)>::empty(),
            h.wf(),
    {
        Headers::new()
    }
}

impl Headers {
    /// The fields as `(name, value)` pairs, in the order of emission.
    pub closed spec fn fields(&self) -> Seq<(Seq<char>, Seq<char>)> {
        Seq::new(self.entries@.len(), |i: int| (self.entries@[i].0@, self.entries@[i].1@))
    }

    /// Well-formedness: no name is bound twice.
    pub open spec fn wf(&self) -> bool {
        names_distinct(self.fields())
    }

    /// No fields.
    #[must_use]
    pub fn new() -> (h: Headers)
        ensures
            h.fields() == Seq::<(Seq<char>, Seq<char>)>::empty(),
            h.wf(),
    {
        let h = Headers { entries: Vec::new() };
        assert(h.fields() =~= Seq::<(Seq<char>, Seq<char>)>::empty());
        h
    }

    /// The index of the field called `key`.
    fn position(&self, key: &str) -> (r: Option<usize>)
        ensures
            match r {
                Some(i) => has_name(self.fields(), key@) && position_of(self.fields(), key@) == i
                    && i < self.entries@.len(),
                None => !has_name(self.fields(), key@),
            },
    {
        let mut i: usize = 0;
        while i < self.entries.len()
            invariant
                i <= self.entries@.len(),
                no_name_before(self.fields(), key@, i as int),
            decreases self.entries@.len() - i,
        {
            if str_eq(self.entries[i].0.as_str(), key) {
                proof {
                    lemma_position_is(self.fields(), key@, i as int);
                }
                return Some(i);
            }
            i += 1;
        }
        None
    }

    /// Binds `key` to `value`, replacing what it was bound to.
    pub fn insert(&mut self, key: &str, value: &str)
        ensures
            final(self).fields() == put(old(self).fields(), key@, value@),
            final(self)@ == old(self)@.insert(key@, value@),
            old(self).wf() ==> final(self).wf(),
    {
        let name = key.to_owned();
        let text = value.to_owned();
        match self.position(key) {
            Some(i) => {
                self.entries.set(i, (name, text));
            },
            None => {
                self.entries.push((name, text));
            },
        }
        proof {
            assert(final(self).fields() =~= put(old(self).fields(), key@, value@));
            lemma_put(old(self).fields(), key@, value@, key@);
            lemma_put_map(old(self).fields(), key@, value@);
        }
    }

    /// The value bound to `key`, where `key` is spelled as the name was
    /// stored.
    pub fn get(&self, key: &str) -> (r: Option<&str>)
        ensures
            match r {
                Some(v) => value_of(self.fields(), key@) == Some(v@),
                None => value_of(self.fields(), key@) is None,
            },
            (r is Some) == self@.contains_key(key@),
            r matches Some(v) ==> v@ == self@[key@],
    {
        match self.position(key) {
            Some(i) => Some(self.entries[i].1.as_str()),
            None => None,
        }
    }

    /// Adds `value` to what `key` is bound to: after `", "` where that is
    /// not empty, in its place where it is, and as a new field where the name
    /// is not bound.
    pub fn append(&mut self, key: &str, value: &str)
        ensures
            final(self).fields() == put_joined(old(self).fields(), key@, value@),
            old(self).wf() ==> final(self).wf(),
    {
        match self.position(key) {
            Some(i) => {
                let mut text = self.entries[i].1.clone();
                if !text.as_str().is_empty() {
                    text.append(", ");
                }
                text.append(value);
                proof {
                    reveal_strlit(", ");
                    assert(", "@ =~= separator());
                    assert(text@ =~= joined(old(self).fields()[i as int].1, value@));
                }
                self.entries.set(i, (key.to_owned(), text));
                proof {
                    assert(final(self).fields() =~= put_joined(old(self).fields(), key@, value@));
                    lemma_put(
                        old(self).fields(),
                        key@,
                        joined(old(self).fields()[i as int].1, value@),
                        key@,
                    );
                }
            },
            None => {
                self.entries.push((key.to_owned(), value.to_owned()));
                proof {
                    assert(final(self).fields() =~= put_joined(old(self).fields(), key@, value@));
                    lemma_put(old(self).fields(), key@, value@, key@);
                }
            },
        }
    }

    /// The `(name, value)` pairs, each once, in the order of emission.
    pub fn iter(&self) -> (pairs: Vec<(&str, &str)>)
        ensures
            pairs@.len() == self.fields().len(),
            forall|i: int|
                0 <= i < pairs@.len() ==> (#[trigger] pairs@[i]).0@ == self.fields()[i].0
                    && pairs@[i].1@ == self.fields()[i].1,
    {
        let mut pairs: Vec<(&str, &str)> = Vec::new();
        let mut i: usize = 0;
        while i < self.entries.len()
            invariant
                i <= self.entries@.len(),
                pairs@.len() == i,
                forall|j: int|
                    0 <= j < i ==> (#[trigger] pairs@[j]).0@ == self.fields()[j].0
                        && pairs@[j].1@ == self.fields()[j].1,
            decreases self.entries@.len() - i,
        {
            pairs.push((self.entries[i].0.as_str(), self.entries[i].1.as_str()));
            i += 1;
        }
        pairs
    }

    /// The number of fields.
    #[must_use]
    pub fn len(&self) -> (n: usize)
        ensures
            n == self.fields().len(),
    {
        self.entries.len()
    }

    /// Whether there is no field.
    #[must_use]
    pub fn is_empty(&self) -> (r: bool)
        ensures
            r == (self.fields().len() == 0),
    {
        self.len() == 0
    }

    /// Takes in one header line, without its line terminator.
    ///
    /// The field that the line holds is added to what its name is bound to.
    /// A refused line changes nothing.
    pub fn create_header_from_string(&mut self, string: &str) -> (r: Result<(), HttpError>)
        ensures
            match with_line(old(self).fields(), string@) {
                Ok(fields) => r is Ok && final(self).fields() == fields,
                Err(e) => r matches Err(x) && x@ == e && final(self).fields() == old(
                    self,
                ).fields(),
            },
            old(self).wf() ==> final(self).wf(),
    {
        reveal(with_line);
        let chars = to_chars(string);
        assert(chars@.subrange(0, chars@.len() as int) =~= string@);
        let (from, to) = trim_bounds(chars.as_slice(), 0, chars.len());
        let ghost t = trim(string@);
        let mut colon: usize = from;
        while colon < to && chars[colon] != ':'
            invariant
                from <= colon <= to <= chars@.len(),
                t == chars@.subrange(from as int, to as int),
                forall|j: int| 0 <= j < colon - from ==> t[j] != ':',
            decreases to - colon,
        {
            colon += 1;
        }
        proof {
            lemma_first_index_of(t, ':', colon - from);
        }
        if colon == to {
            return Err(HttpError::MalformedHeader);
        }
        let ghost key = t.subrange(0, colon - from);
        assert(key =~= chars@.subrange(from as int, colon as int));
        assert(t.subrange(colon - from + 1, t.len() as int) =~= chars@.subrange(
            colon as int + 1,
            to as int,
        ));
        let (value_from, value_to) = trim_bounds(chars.as_slice(), colon + 1, to);
        let mut k: usize = from;
        while k < colon
            invariant
                from <= k <= colon < to <= chars@.len(),
                key == chars@.subrange(from as int, colon as int),
                key == t.subrange(0, colon - from),
                t == trim(string@),
                t.len() == to - from,
                first_index_of(t, ':') == colon - from,
                *self == *old(self),
                forall|j: int| 0 <= j < k - from ==> is_token_char(#[trigger] key[j]),
            decreases colon - k,
        {
            if !is_valid_char(chars[k]) {
                proof {
                    reveal(with_line);
                    assert(key[k - from] == chars@[k as int]);
                    assert(!is_token(key));
                }
                return Err(HttpError::MalformedHeader);
            }
            k += 1;
        }
        let is_host = colon - from == 4 && chars[from] == 'h' && chars[from + 1] == 'o' && chars[from
            + 2] == 's' && chars[from + 3] == 't';
        assert(is_host == (key == host_name())) by {
            if is_host {
                assert(key =~= host_name());
            }
        }
        if is_host && value_from == value_to {
            return Err(HttpError::InvalidHeaders);
        }
        let name = lower_string(chars.as_slice(), from, colon);
        let value = from_chars(chars.as_slice(), value_from, value_to);
        if self.position(name.as_str()).is_some() {
            self.append(name.as_str(), value.as_str());
        } else {
            self.insert(name.as_str(), value.as_str());
        }
        Ok(())
    }

    /// Reads the header block at the start of `data`.
    ///
    /// Returns how many octets were consumed and whether the blank line that
    /// ends the block was among them. The caller keeps what was not consumed
    /// and hands it in again, with what has arrived since in behind it.
    pub fn parse_header(&mut self, data: &[u8]) -> (r: Result<(usize, bool), HttpError>)
        ensures
            final(self).fields() == parse_block(old(self).fields(), data@).fields,
            match parse_block(old(self).fields(), data@).status {
                BlockStatus::Partial => r matches Ok(v) && v.0 == parse_block(
                    old(self).fields(),
                    data@,
                ).consumed && !v.1,
                BlockStatus::Complete => r matches Ok(v) && v.0 == parse_block(
                    old(self).fields(),
                    data@,
                ).consumed && v.1,
                BlockStatus::Failed(e) => r matches Err(x) && x@ == e,
            },
            old(self).wf() ==> final(self).wf(),
    {
        let ghost whole = parse_block(old(self).fields(), data@);
        let mut pos: usize = 0;
        assert(data@.subrange(0, data@.len() as int) =~= data@);
        loop
            invariant
                pos <= data@.len(),
                whole == parse_block(old(self).fields(), data@),
                whole.fields == parse_block(
                    self.fields(),
                    data@.subrange(pos as int, data@.len() as int),
                ).fields,
                whole.status == parse_block(
                    self.fields(),
                    data@.subrange(pos as int, data@.len() as int),
                ).status,
                whole.consumed == pos + parse_block(
                    self.fields(),
                    data@.subrange(pos as int, data@.len() as int),
                ).consumed,
                old(self).wf() ==> self.wf(),
            decreases data@.len() - pos,
        {
            let rest = slice_subrange(data, pos, data.len());
            proof {
                lemma_find_crlf(rest@);
            }
            match first_crlf(rest) {
                None => {
                    return Ok((pos, false));
                },
                Some(end) => {
                    if end == 0 {
                        return Ok((pos + CRLF_LEN, true));
                    }
                    let line = decode_lossy(slice_subrange(rest, 0, end));
                    match self.create_header_from_string(line.as_str()) {
                        Err(e) => {
                            return Err(e);
                        },
                        Ok(()) => {},
                    }
                    assert(rest@.subrange(end as int + 2, rest@.len() as int) =~= data@.subrange(
                        pos as int + end as int + 2,
                        data@.len() as int,
                    ));
                    pos = pos + end + CRLF_LEN;
                },
            }
        }
    }

    /// Whether the value bound to `name` lists more than one.
    fn lists_several(&self, name: &str) -> (r: bool)
        ensures
            r == is_repeated(self.fields(), name@),
    {
        match self.get(name) {
            None => false,
            Some(value) => {
                let chars = to_chars(value);
                let mut i: usize = 1;
                while i < chars.len()
                    invariant
                        1 <= i,
                        chars@ == value@,
                        value_of(self.fields(), name@) == Some(value@),
                        forall|j: int| j + 1 < i ==> !separator_at(chars@, j),
                    decreases chars@.len() - i,
                {
                    if chars[i - 1] == ',' && chars[i] == ' ' {
                        assert(separator_at(value@, i as int - 1));
                        return true;
                    }
                    i += 1;
                }
                false
            },
        }
    }

    /// Whether a field that a peer may send only once arrived several
    /// times.
    #[must_use]
    pub fn duplicate_headers(&self) -> (r: bool)
        ensures
            r == critical_repeated(self.fields()),
    {
        self.lists_several("host") || self.lists_several("content-length") || self.lists_several(
            "transfer-encoding",
        ) || self.lists_several("connection")
    }
}

} // verus!
