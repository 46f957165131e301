//! The vocabulary: a table of tokens, each a byte string with an id, in
//! which no id and no byte string occurs twice.

use crate::codec::{base64_decoded, decimal_u32, decode_base64, is_utf8, parse_u32};
use crate::node::TrieNode;
use std::collections::HashMap;
use vstd::prelude::*;
use vstd::slice::slice_subrange;

verus! {

broadcast use vstd::std_specs::hash::group_hash_axioms;

/// The error that the result of `load` is typed with. No text gives it: a
/// line that cannot be read is passed over, and the load goes on.
#[derive(Clone, Copy, Debug, PartialEq, Eq)]
pub enum LoadError {
    /// The text could not be read as a whole.
    Unreadable,
}

/// The tokens, each with its id, and an index from either side.
pub struct Vocabulary {
    tokens: Vec<Vec<u8>>,
    ids: Vec<u32>,
    /// For each id, the place of its entry.
    place_of_id: HashMap<u32, usize>,
    /// For each token's bytes, its id.
    id_of_bytes: TrieNode,
}

/// Some entry has this id.
pub open spec fn has_id(entries: Seq<(u32, Seq<u8>)>, id: u32) -> bool {
    exists|i: int| 0 <= i < entries.len() && (#[trigger] entries[i]).0 == id
}

/// Some entry has these bytes.
pub open spec fn has_token(entries: Seq<(u32, Seq<u8>)>, token: Seq<u8>) -> bool {
    exists|i: int| 0 <= i < entries.len() && (#[trigger] entries[i]).1 == token
}

/// No id and no byte string occurs in two entries.
pub open spec fn distinct(entries: Seq<(u32, Seq<u8>)>) -> bool {
    forall|i: int, j: int|
        0 <= i < j < entries.len() ==> (#[trigger] entries[i]).0 != (#[trigger] entries[j]).0
            && entries[i].1 != entries[j].1
}

/// The table after `token` was offered under `id`: it is added at the end
/// unless the id or the byte string is already there.
pub open spec fn inserted(entries: Seq<(u32, Seq<u8>)>, token: Seq<u8>, id: u32) -> Seq<
    (u32, Seq<u8>),
> {
    if has_id(entries, id) || has_token(entries, token) {
        entries
    } else {
        entries.push((id, token))
    }
}

/// The bytes of the token with this id.
pub open spec fn bytes_of(entries: Seq<(u32, Seq<u8>)>, id: u32) -> Seq<u8> {
    entries[choose|i: int| 0 <= i < entries.len() && (#[trigger] entries[i]).0 == id].1
}

/// The byte strings of the entries, in their order.
pub open spec fn token_column(entries: Seq<(u32, Seq<u8>)>) -> Seq<Seq<u8>> {
    Seq::new(entries.len(), |i: int| entries[i].1)
}

/// The byte strings that `tokens` hold.
pub open spec fn byte_views(tokens: Seq<Vec<u8>>) -> Seq<Seq<u8>> {
    Seq::new(tokens.len(), |i: int| tokens[i]@)
}

/// The bytes of those of `ids` that the table knows, in the order of `ids`.
pub open spec fn resolved(entries: Seq<(u32, Seq<u8>)>, ids: Seq<u32>) -> Seq<Seq<u8>>
    decreases ids.len(),
{
    if ids.len() == 0 {
        Seq::empty()
    } else {
        let rest = resolved(entries, ids.drop_last());
        if has_id(entries, ids.last()) {
            rest.push(bytes_of(entries, ids.last()))
        } else {
            rest
        }
    }
}

/// The number of bytes that the whitespace character at `i` takes, or 0
/// where none starts there. Whitespace is what Unicode calls White_Space,
/// in UTF-8: U+0009 to U+000D, U+0020, U+0085, U+00A0, U+1680, U+2000 to
/// U+200A, U+2028, U+2029, U+202F, U+205F and U+3000.
pub open spec fn space_len(line: Seq<u8>, i: int) -> int {
    if !(0 <= i < line.len()) {
        0
    } else if line[i] == 0x20 || 0x09 <= line[i] <= 0x0d {
        1
    } else if i + 1 < line.len() && line[i] == 0xc2 && (line[i + 1] == 0x85 || line[i + 1]
        == 0xa0) {
        2
    } else if i + 2 < line.len() && line[i] == 0xe1 && line[i + 1] == 0x9a && line[i + 2]
        == 0x80 {
        3
    } else if i + 2 < line.len() && line[i] == 0xe2 && line[i + 1] == 0x80 && (0x80 <= line[i
        + 2] <= 0x8a || line[i + 2] == 0xa8 || line[i + 2] == 0xa9 || line[i + 2] == 0xaf) {
        3
    } else if i + 2 < line.len() && line[i] == 0xe2 && line[i + 1] == 0x81 && line[i + 2]
        == 0x9f {
        3
    } else if i + 2 < line.len() && line[i] == 0xe3 && line[i + 1] == 0x80 && line[i + 2]
        == 0x80 {
        3
    } else {
        0
    }
}

/// The first place at or after `i` at which no whitespace character
/// starts.
pub open spec fn skip_spaces(line: Seq<u8>, i: int) -> int
    decreases line.len() - i,
{
    if space_len(line, i) > 0 {
        skip_spaces(line, i + space_len(line, i))
    } else {
        i
    }
}

/// The first place at or after `i` at which a whitespace character starts,
/// or the end.
pub open spec fn skip_word(line: Seq<u8>, i: int) -> int
    decreases line.len() - i,
{
    if 0 <= i < line.len() && space_len(line, i) == 0 {
        skip_word(line, i + 1)
    } else {
        i
    }
}

/// The first place at or after `i` that holds a line feed.
pub open spec fn line_end(data: Seq<u8>, i: int) -> int
    decreases data.len() - i,
{
    if 0 <= i < data.len() && data[i] != 10 {
        line_end(data, i + 1)
    } else {
        i
    }
}

/// The two fields of a line that holds exactly two, each a run of bytes
/// without whitespace.
pub open spec fn line_fields(line: Seq<u8>) -> Option<(Seq<u8>, Seq<u8>)> {
    let a = skip_spaces(line, 0);
    let b = skip_word(line, a);
    let c = skip_spaces(line, b);
    let d = skip_word(line, c);
    let e = skip_spaces(line, d);
    if a < b && c < d && e == line.len() {
        Some((line.subrange(a, b), line.subrange(c, d)))
    } else {
        None
    }
}

/// The entry that the two fields of a line give, the first of them
/// already decoded: the bytes, if they were decoded and are UTF-8, with the
/// id that the second field writes in decimal.
pub open spec fn fields_entry(decoded: Option<Seq<u8>>, number: Seq<u8>) -> Option<(Seq<u8>, u32)> {
    match (decoded, decimal_u32(number)) {
        (Some(token), Some(id)) => if vstd::utf8::valid_utf8(token) {
            Some((token, id))
        } else {
            None
        },
        _ => None,
    }
}

/// The entry that a line stands for: the line is UTF-8 and holds base64
/// text that decodes to UTF-8, then a decimal id.
pub open spec fn line_entry(line: Seq<u8>) -> Option<(Seq<u8>, u32)> {
    if vstd::utf8::valid_utf8(line) {
        match line_fields(line) {
            Some((text, number)) => fields_entry(base64_decoded(text), number),
            None => None,
        }
    } else {
        None
    }
}

/// The table after one line: a line that stands for no entry changes
/// nothing.
pub open spec fn with_line(entries: Seq<(u32, Seq<u8>)>, line: Seq<u8>) -> Seq<(u32, Seq<u8>)> {
    match line_entry(line) {
        Some((token, id)) => inserted(entries, token, id),
        None => entries,
    }
}

/// The table after the lines of `data` from `pos` on, taken in order.
pub open spec fn loaded_from(entries: Seq<(u32, Seq<u8>)>, data: Seq<u8>, pos: int) -> Seq<
    (u32, Seq<u8>),
>
    decreases data.len() - pos,
{
    let end = line_end(data, pos);
    if 0 <= pos < data.len() && pos <= end <= data.len() {
        let next = with_line(entries, data.subrange(pos, end));
        if end < data.len() {
            loaded_from(next, data, end + 1)
        } else {
            next
        }
    } else {
        entries
    }
}

/// The number of bytes that the whitespace character at `i` takes, or 0
/// where none starts there.
pub fn whitespace_at(line: &[u8], i: usize) -> (n: usize)
    requires
        i < line.len(),
    ensures
        n == space_len(line@, i as int),
        i + n <= line.len(),
{
    let b = line[i];
    if b == 0x20 || (0x09 <= b && b <= 0x0d) {
        return 1;
    }
    if line.len() - i >= 2 && b == 0xc2 && (line[i + 1] == 0x85 || line[i + 1] == 0xa0) {
        return 2;
    }
    if line.len() - i >= 3 {
        let c = line[i + 1];
        let d = line[i + 2];
        if b == 0xe1 && c == 0x9a && d == 0x80 {
            return 3;
        }
        if b == 0xe2 && c == 0x80 && ((0x80 <= d && d <= 0x8a) || d == 0xa8 || d == 0xa9 || d
            == 0xaf) {
            return 3;
        }
        if b == 0xe2 && c == 0x81 && d == 0x9f {
            return 3;
        }
        if b == 0xe3 && c == 0x80 && d == 0x80 {
            return 3;
        }
    }
    0
}

fn after_spaces(line: &[u8], start: usize) -> (i: usize)
    requires
        start <= line.len(),
    ensures
        i == skip_spaces(line@, start as int),
        start <= i <= line.len(),
{
    let mut i: usize = start;
    while i < line.len()
        invariant
            start <= i <= line.len(),
            skip_spaces(line@, start as int) == skip_spaces(line@, i as int),
        decreases line.len() - i,
    {
        let n = whitespace_at(line, i);
        if n == 0 {
            return i;
        }
        i = i + n;
    }
    i
}

fn after_word(line: &[u8], start: usize) -> (i: usize)
    requires
        start <= line.len(),
    ensures
        i == skip_word(line@, start as int),
        start <= i <= line.len(),
{
    let mut i: usize = start;
    while i < line.len()
        invariant
            start <= i <= line.len(),
            skip_word(line@, start as int) == skip_word(line@, i as int),
        decreases line.len() - i,
    {
        if whitespace_at(line, i) != 0 {
            return i;
        }
        i = i + 1;
    }
    i
}

fn after_line(data: &[u8], start: usize) -> (i: usize)
    requires
        start <= data.len(),
    ensures
        i == line_end(data@, start as int),
        start <= i <= data.len(),
{
    let mut i: usize = start;
    while i < data.len() && data[i] != 10
        invariant
            start <= i <= data.len(),
            line_end(data@, start as int) == line_end(data@, i as int),
        decreases data.len() - i,
    {
        i = i + 1;
    }
    i
}

/// Splits a line into its two fields.
pub fn split_line(line: &[u8]) -> (fields: Option<(&[u8], &[u8])>)
    ensures
        fields.is_some() == line_fields(line@).is_some(),
        fields.is_some() ==> fields.unwrap().0@ == line_fields(line@).unwrap().0
            && fields.unwrap().1@ == line_fields(line@).unwrap().1,
{
    let a = after_spaces(line, 0);
    let b = after_word(line, a);
    let c = after_spaces(line, b);
    let d = after_word(line, c);
    let e = after_spaces(line, d);
    if a < b && c < d && e == line.len() {
        Some((slice_subrange(line, a, b), slice_subrange(line, c, d)))
    } else {
        None
    }
}

/// The entry that the two fields of a line give, the first of them already
/// decoded.
pub fn entry_of(decoded: Option<Vec<u8>>, number: &[u8]) -> (entry: Option<(Vec<u8>, u32)>)
    ensures
        entry.is_some() == fields_entry(
            match decoded {
                Some(token) => Some(token@),
                None => None,
            },
            number@,
        ).is_some(),
        entry.is_some() ==> decoded.is_some() && entry.unwrap().0@ == decoded.unwrap()@
            && decimal_u32(number@) == Some(entry.unwrap().1),
{
    let Some(token) = decoded else {
        return None;
    };
    if !is_utf8(token.as_slice()) {
        return None;
    }
    let Some(id) = parse_u32(number) else {
        return None;
    };
    Some((token, id))
}

/// Reads one line of a vocabulary text.
pub fn parse_line(line: &[u8]) -> (entry: Option<(Vec<u8>, u32)>)
    ensures
        entry.is_some() == line_entry(line@).is_some(),
        entry.is_some() ==> entry.unwrap().0@ == line_entry(line@).unwrap().0 && entry.unwrap().1
            == line_entry(line@).unwrap().1,
{
    if !is_utf8(line) {
        return None;
    }
    let Some((text, number)) = split_line(line) else {
        return None;
    };
    entry_of(decode_base64(text), number)
}

impl View for Vocabulary {
    type V = Seq<(u32, Seq<u8>)>;

    /// The entries as (id, bytes), in the order they were added.
    closed spec fn view(&self) -> Seq<(u32, Seq<u8>)> {
        Seq::new(self.ids.len() as nat, |i: int| (self.ids[i], self.tokens[i]@))
    }
}

impl Vocabulary {
    /// The table holds no id and no byte string twice, and both indexes
    /// agree with it.
    pub closed spec fn wf(&self) -> bool {
        &&& self.tokens.len() == self.ids.len()
        &&& distinct(self@)
        &&& forall|i: int|
            0 <= i < self.ids.len() ==> self.place_of_id@.contains_key(#[trigger] self.ids[i])
                && self.place_of_id@[self.ids[i]] == i
        &&& forall|id: u32| #[trigger]
            self.place_of_id@.contains_key(id) ==> self.place_of_id@[id] < self.ids.len()
                && self.ids[self.place_of_id@[id] as int] == id
        &&& self.id_of_bytes.wf()
        &&& forall|path: Seq<u8>, id: u32|
            self.id_of_bytes.lookup(path) == Some(id) <==> #[trigger] self@.contains((id, path))
    }

    /// No id and no byte string occurs twice in a vocabulary.
    pub proof fn lemma_distinct(&self)
        requires
            self.wf(),
        ensures
            distinct(self@),
    {
    }

    /// An empty vocabulary.
    pub fn new() -> (vocabulary: Self)
        ensures
            vocabulary.wf(),
            vocabulary@ == Seq::<(u32, Seq<u8>)>::empty(),
    {
        let vocabulary = Vocabulary {
            tokens: Vec::new(),
            ids: Vec::new(),
            place_of_id: HashMap::new(),
            id_of_bytes: TrieNode::leaf(),
        };
        assert(vocabulary@ =~= Seq::<(u32, Seq<u8>)>::empty());
        vocabulary
    }

    /// The number of entries.
    pub fn len(&self) -> (n: usize)
        requires
            self.wf(),
        ensures
            n == self@.len(),
    {
        self.ids.len()
    }

    /// The id of the entry at `index`.
    pub fn id_at(&self, index: usize) -> (id: u32)
        requires
            self.wf(),
            index < self@.len(),
        ensures
            id == self@[index as int].0,
    {
        self.ids[index]
    }

    /// The bytes of the entry at `index`.
    pub fn token_at(&self, index: usize) -> (token: &Vec<u8>)
        requires
            self.wf(),
            index < self@.len(),
        ensures
            token@ == self@[index as int].1,
    {
        &self.tokens[index]
    }

    /// All entries as (id, bytes), in the order they were added.
    pub fn all_tokens(&self) -> (entries: Vec<(u32, Vec<u8>)>)
        requires
            self.wf(),
        ensures
            entries@.len() == self@.len(),
            forall|i: int|
                0 <= i < entries@.len() ==> (#[trigger] entries@[i]).0 == self@[i].0
                    && entries@[i].1@ == self@[i].1,
    {
        let mut entries: Vec<(u32, Vec<u8>)> = Vec::new();
        let mut i: usize = 0;
        while i < self.ids.len()
            invariant
                self.wf(),
                i <= self.ids.len(),
                entries@.len() == i,
                forall|k: int|
                    0 <= k < i ==> (#[trigger] entries@[k]).0 == self@[k].0 && entries@[k].1@
                        == self@[k].1,
            decreases self.ids.len() - i,
        {
            let token = self.tokens[i].clone();
            entries.push((self.ids[i], token));
            i = i + 1;
        }
        entries
    }

    /// The byte strings of all entries, in their order.
    pub fn tokens(&self) -> (tokens: &Vec<Vec<u8>>)
        requires
            self.wf(),
        ensures
            byte_views(tokens@) == token_column(self@),
    {
        assert(byte_views(self.tokens@) =~= token_column(self@));
        &self.tokens
    }

    /// The bytes of the token with this id.
    pub fn get_token(&self, id: u32) -> (token: Option<Vec<u8>>)
        requires
            self.wf(),
        ensures
            token.is_some() == has_id(self@, id),
            token.is_some() ==> self@.contains((id, token.unwrap()@)) && token.unwrap()@
                == bytes_of(self@, id),
    {
        match self.place_of_id.get(&id) {
            Some(place) => {
                let token = self.tokens[*place].clone();
                assert(self@[*place as int] == (id, token@));
                proof {
                    lemma_bytes_of_entry(self@, *place as int);
                }
                Some(token)
            },
            None => {
                assert forall|k: int| 0 <= k < self@.len() implies (#[trigger] self@[k]).0 != id by {
                    assert(self.place_of_id@.contains_key(self.ids[k]));
                }
                None
            },
        }
    }

    /// The bytes of those of `ids` that the vocabulary knows, in the order
    /// of `ids`.
    pub fn resolve(&self, ids: &[u32]) -> (tokens: Vec<Vec<u8>>)
        requires
            self.wf(),
        ensures
            byte_views(tokens@) == resolved(self@, ids@),
    {
        let mut tokens: Vec<Vec<u8>> = Vec::new();
        let mut k: usize = 0;
        while k < ids.len()
            invariant
                self.wf(),
                k <= ids.len(),
                byte_views(tokens@) == resolved(self@, ids@.subrange(0, k as int)),
            decreases ids.len() - k,
        {
            let ghost before = byte_views(tokens@);
            assert(ids@.subrange(0, k + 1).drop_last() =~= ids@.subrange(0, k as int));
            if let Some(token) = self.get_token(ids[k]) {
                tokens.push(token);
                assert(byte_views(tokens@) =~= before.push(token@));
            }
            k = k + 1;
        }
        assert(ids@.subrange(0, k as int) =~= ids@);
        tokens
    }

    /// The id of the token with these bytes.
    pub fn get_id(&self, token: &[u8]) -> (id: Option<u32>)
        requires
            self.wf(),
        ensures
            id.is_some() == has_token(self@, token@),
            id.is_some() ==> self@.contains((id.unwrap(), token@)),
    {
        let id = self.id_of_bytes.find_token(token);
        proof {
            if id.is_some() {
                assert(self@.contains((id.unwrap(), token@)));
                let k = choose|k: int| 0 <= k < self@.len() && self@[k] == (id.unwrap(), token@);
                assert(self@[k].1 == token@);
            } else if has_token(self@, token@) {
                let k = choose|k: int| 0 <= k < self@.len() && (#[trigger] self@[k]).1 == token@;
                assert(self@[k] == (self@[k].0, token@));
                assert(self@.contains((self@[k].0, token@)));
            }
        }
        id
    }

    /// Adds `token` under `id`, unless the id or the bytes are already in
    /// the table; says whether it was added.
    pub fn insert(&mut self, token: Vec<u8>, id: u32) -> (added: bool)
        requires
            old(self).wf(),
        ensures
            final(self).wf(),
            final(self)@ == inserted(old(self)@, token@, id),
            added == !(has_id(old(self)@, id) || has_token(old(self)@, token@)),
    {
        if self.get_token(id).is_some() {
            return false;
        }
        if self.get_id(token.as_slice()).is_some() {
            return false;
        }
        let ghost before = self@;
        let ghost bytes = token@;
        let place = self.ids.len();
        let mut index = TrieNode::leaf();
        std::mem::swap(&mut self.id_of_bytes, &mut index);
        let ghost old_index = index;
        assert(token@.skip(0) =~= token@);
        self.id_of_bytes = TrieNode::insert_at(index, token.as_slice(), 0, id);
        self.tokens.push(token);
        self.ids.push(id);
        self.place_of_id.insert(id, place);
        assert(self@ =~= before.push((id, bytes)));
        assert(old_index.lookup(bytes).is_none()) by {
            if old_index.lookup(bytes).is_some() {
                let x = old_index.lookup(bytes).unwrap();
                assert(before.contains((x, bytes)));
                let k = choose|k: int| 0 <= k < before.len() && before[k] == (x, bytes);
                assert(before[k].1 == bytes);
            }
        }
        assert forall|path: Seq<u8>, other: u32|
            self.id_of_bytes.lookup(path) == Some(other) <==> #[trigger] self@.contains(
                (other, path),
            ) by {
            if self@.contains((other, path)) {
                let k = choose|k: int| 0 <= k < self@.len() && self@[k] == (other, path);
                if k < before.len() {
                    assert(before[k] == (other, path));
                    assert(before.contains((other, path)));
                    assert(before[k].1 == path);
                }
            }
            if self.id_of_bytes.lookup(path) == Some(other) {
                if path == bytes {
                    assert(self@[place as int] == (id, bytes));
                } else {
                    assert(before.contains((other, path)));
                    let k = choose|k: int| 0 <= k < before.len() && before[k] == (other, path);
                    assert(self@[k] == (other, path));
                }
            }
        }
        assert forall|i: int| 0 <= i < self.ids.len() implies self.place_of_id@.contains_key(
            #[trigger] self.ids[i],
        ) && self.place_of_id@[self.ids[i]] == i by {
            if i < place {
                assert(before[i].0 == self.ids[i]);
            }
        }
        assert forall|i: int, j: int| 0 <= i < j < self@.len() implies (#[trigger] self@[i]).0 != (
        #[trigger] self@[j]).0 && self@[i].1 != self@[j].1 by {
            assert(self@[i] == before[i]);
            if j < before.len() {
                assert(self@[j] == before[j]);
            }
        }
        true
    }

    /// Reads a vocabulary text: one entry a line, the token's bytes in
    /// base64, whitespace, the id in decimal. The text is cut into lines at
    /// each line feed, and each line is judged alone: one that is not UTF-8
    /// or of another shape is passed over, and so is one whose id or token
    /// is already in the table. No text is refused.
    pub fn load(&mut self, data: &[u8]) -> (outcome: Result<(), LoadError>)
        requires
            old(self).wf(),
        ensures
            final(self).wf(),
            outcome.is_ok(),
            final(self)@ == loaded_from(old(self)@, data@, 0),
    {
        let mut pos: usize = 0;
        while pos < data.len()
            invariant
                self.wf(),
                pos <= data.len(),
                loaded_from(old(self)@, data@, 0) == loaded_from(self@, data@, pos as int),
            decreases data.len() - pos,
        {
            let end = after_line(data, pos);
            let line = slice_subrange(data, pos, end);
            if let Some((token, id)) = parse_line(line) {
                self.insert(token, id);
            }
            if end == data.len() {
                pos = end;
            } else {
                pos = end + 1;
            }
        }
        Ok(())
    }
}

/// In a table without repeated ids, the bytes of an entry are the bytes of
/// its id.
pub proof fn lemma_bytes_of_entry(entries: Seq<(u32, Seq<u8>)>, i: int)
    requires
        distinct(entries),
        0 <= i < entries.len(),
    ensures
        bytes_of(entries, entries[i].0) == entries[i].1,
{
    let j = choose|j: int| 0 <= j < entries.len() && (#[trigger] entries[j]).0 == entries[i].0;
    if j < i {
        assert(entries[j].0 != entries[i].0);
    } else if i < j {
        assert(entries[i].0 != entries[j].0);
    }
}

/// Looking a stored token up by its id and that id up again gives the token
/// back, and the other way round.
pub proof fn lemma_lookups_are_inverse(entries: Seq<(u32, Seq<u8>)>, id: u32, token: Seq<u8>)
    requires
        distinct(entries),
        entries.contains((id, token)),
    ensures
        forall|other: Seq<u8>| entries.contains((id, other)) ==> other == token,
        forall|other: u32| entries.contains((other, token)) ==> other == id,
{
}

} // verus!
