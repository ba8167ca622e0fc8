//! Field tokenizer: splits one record (a line of text) into trimmed
//! fields on a single-byte delimiter, and joins fields back together.

use vstd::prelude::*;

verus! {

/// The characters that trimming removes: the Unicode `White_Space` set,
/// which is what the host string type treats as whitespace.
pub open spec fn is_ws_char(c: char) -> bool {
    let u = c as u32;
    (0x09 <= u && u <= 0x0D) || u == 0x20 || u == 0x85 || u == 0xA0 || u == 0x1680 || (0x2000
        <= u && u <= 0x200A) || u == 0x2028 || u == 0x2029 || u == 0x202F || u == 0x205F || u
        == 0x3000
}

/// Runtime test for membership in the Unicode `White_Space` set.
pub fn char_is_ws(c: char) -> (r: bool)
    ensures
        r == is_ws_char(c),
{
    let u = c as u32;
    (0x09 <= u && u <= 0x0D) || u == 0x20 || u == 0x85 || u == 0xA0 || u == 0x1680 || (0x2000 <= u
        && u <= 0x200A) || u == 0x2028 || u == 0x2029 || u == 0x202F || u == 0x205F || u == 0x3000
}

/// The text with its leading whitespace removed.
pub open spec fn trim_front(s: Seq<char>) -> Seq<char>
    decreases s.len(),
{
    if s.len() == 0 {
        s
    } else if is_ws_char(s[0]) {
        trim_front(s.drop_first())
    } else {
        s
    }
}

/// The text with its trailing whitespace removed.
pub open spec fn trim_back(s: Seq<char>) -> Seq<char>
    decreases s.len(),
{
    if s.len() == 0 {
        s
    } else if is_ws_char(s.last()) {
        trim_back(s.drop_last())
    } else {
        s
    }
}

/// The text with whitespace removed from both ends.
pub open spec fn spec_trim(s: Seq<char>) -> Seq<char> {
    trim_back(trim_front(s))
}

proof fn lemma_trim_front_len(s: Seq<char>)
    ensures
        trim_front(s).len() <= s.len(),
    decreases s.len(),
{
    if s.len() > 0 && is_ws_char(s[0]) {
        lemma_trim_front_len(s.drop_first());
    }
}

proof fn lemma_trim_back_len(s: Seq<char>)
    ensures
        trim_back(s).len() <= s.len(),
    decreases s.len(),
{
    if s.len() > 0 && is_ws_char(s.last()) {
        lemma_trim_back_len(s.drop_last());
    }
}

pub proof fn lemma_trim_len(s: Seq<char>)
    ensures
        spec_trim(s).len() <= s.len(),
{
    lemma_trim_front_len(s);
    lemma_trim_back_len(trim_front(s));
}

/// `trim_front` drops exactly the run of leading whitespace.
proof fn lemma_trim_front_skip(s: Seq<char>, k: int)
    requires
        0 <= k <= s.len(),
        forall|j: int| 0 <= j < k ==> is_ws_char(s[j]),
        k == s.len() || !is_ws_char(s[k]),
    ensures
        trim_front(s) == s.skip(k),
    decreases k,
{
    if k == 0 {
        assert(s.skip(0) =~= s);
        if s.len() > 0 {
            assert(!is_ws_char(s[0]));
        }
    } else {
        assert(is_ws_char(s[0]));
        let t = s.drop_first();
        assert(forall|j: int| 0 <= j < k - 1 ==> is_ws_char(t[j]));
        lemma_trim_front_skip(t, k - 1);
        assert(t.skip(k - 1) =~= s.skip(k));
    }
}

/// `trim_back` drops exactly the run of trailing whitespace.
proof fn lemma_trim_back_take(s: Seq<char>, k: int)
    requires
        0 <= k <= s.len(),
        forall|j: int| k <= j < s.len() ==> is_ws_char(s[j]),
        k == 0 || !is_ws_char(s[k - 1]),
    ensures
        trim_back(s) == s.take(k),
    decreases s.len() - k,
{
    if k == s.len() {
        assert(s.take(k) =~= s);
        if s.len() > 0 {
            assert(!is_ws_char(s.last()));
        }
    } else {
        assert(is_ws_char(s.last()));
        let t = s.drop_last();
        lemma_trim_back_take(t, k);
        assert(t.take(k) =~= s.take(k));
    }
}

/// Removes leading and trailing whitespace, as the library's contracts
/// define it.
pub fn trim(s: &str) -> (r: &str)
    ensures
        r@ == spec_trim(s@),
{
    let n = s.unicode_len();
    let mut start: usize = 0;
    while start < n && char_is_ws(s.get_char(start))
        invariant
            n == s@.len(),
            0 <= start <= n,
            forall|j: int| 0 <= j < start ==> is_ws_char(s@[j]),
        decreases n - start,
    {
        start = start + 1;
    }
    let mut end: usize = n;
    while end > start && char_is_ws(s.get_char(end - 1))
        invariant
            n == s@.len(),
            0 <= start <= end <= n,
            forall|j: int| 0 <= j < start ==> is_ws_char(s@[j]),
            forall|j: int| end <= j < n ==> is_ws_char(s@[j]),
        decreases end,
    {
        end = end - 1;
    }
    let r = s.substring_char(start, end);
    proof {
        lemma_trim_front_skip(s@, start as int);
        let t = s@.skip(start as int);
        assert(forall|j: int| end - start <= j < t.len() ==> is_ws_char(t[j]));
        if end > start {
            assert(!is_ws_char(s@[end - 1]));
            assert(t[end - start - 1] == s@[end - 1]);
        }
        lemma_trim_back_take(t, end - start);
        assert(t.take(end - start) =~= s@.subrange(start as int, end as int));
    }
    r
}

/// The position of the first occurrence of `x`, if any.
pub open spec fn find_first<A>(x: A, s: Seq<A>) -> Option<int>
    decreases s.len(),
{
    if s.len() == 0 {
        None
    } else if s[0] == x {
        Some(0)
    } else {
        match find_first(x, s.drop_first()) {
            Some(i) => Some(i + 1),
            None => None,
        }
    }
}

/// What `find_first` returns, characterized without recursion.
pub proof fn lemma_find_first<A>(x: A, s: Seq<A>)
    ensures
        match find_first(x, s) {
            Some(i) => 0 <= i < s.len() && s[i] == x && forall|j: int| 0 <= j < i ==> s[j] != x,
            None => forall|j: int| 0 <= j < s.len() ==> s[j] != x,
        },
    decreases s.len(),
{
    if s.len() > 0 && s[0] != x {
        lemma_find_first(x, s.drop_first());
        let t = s.drop_first();
        assert(forall|j: int| 1 <= j < s.len() ==> s[j] == t[j - 1]);
    }
}

/// What `next_field` returns: the trimmed text before the first
/// delimiter paired with the untrimmed remainder after it, or the whole
/// trimmed text and an empty remainder when no delimiter occurs.
pub open spec fn spec_next_field(d: char, s: Seq<char>) -> (Seq<char>, Seq<char>) {
    let t = spec_trim(s);
    match find_first(d, t) {
        Some(i) => (spec_trim(t.take(i)), t.skip(i + 1)),
        None => (t, Seq::empty()),
    }
}

/// Finds the next field separated by `delim` in the given record.
///
/// Returns the next field and the remaining data in the record; the
/// whitespace around the record and around the field is trimmed. The
/// delimiter byte stands for the character at its code point.
pub fn next_field<'a>(delim: u8, record: &'a str) -> (r: (&'a str, &'a str))
    ensures
        r.0@ == spec_next_field(delim as char, record@).0,
        r.1@ == spec_next_field(delim as char, record@).1,
{
    let record = trim(record);
    let d = delim as char;
    let n = record.unicode_len();
    let mut i: usize = 0;
    while i < n && record.get_char(i) != d
        invariant
            n == record@.len(),
            0 <= i <= n,
            forall|j: int| 0 <= j < i ==> record@[j] != d,
        decreases n - i,
    {
        i = i + 1;
    }
    proof {
        lemma_find_first(d, record@);
    }
    if i < n {
        proof {
            assert(record@[i as int] == d);
            assert(find_first(d, record@) matches Some(k) && k == i);
        }
        let field = trim(record.substring_char(0, i));
        let rest = record.substring_char(i + 1, n);
        proof {
            assert(record@.subrange(0, i as int) =~= record@.take(i as int));
            assert(record@.subrange(i + 1, n as int) =~= record@.skip(i + 1));
        }
        (field, rest)
    } else {
        let empty = "";
        proof {
            reveal_strlit("");
            assert(empty@ =~= Seq::<char>::empty());
        }
        (record, empty)
    }
}

/// An enumerator of the fields of one record, created by `enum_fields`.
///
/// It hands the fields out one at a time through its `next` method.
pub struct EnumFields<'a> {
    delim: u8,
    record: &'a str,
}

impl<'a> EnumFields<'a> {
    /// The delimiter character the enumerator splits on.
    pub closed spec fn spec_delim(&self) -> char {
        self.delim as char
    }

    /// The text the enumerator has not yet handed out.
    pub closed spec fn spec_rest(&self) -> Seq<char> {
        self.record@
    }

    /// Returns the next field, or `None` once the remaining text is
    /// empty.
    pub fn next(&mut self) -> (r: Option<&'a str>)
        ensures
            final(self).spec_delim() == old(self).spec_delim(),
            old(self).spec_rest().len() == 0 ==> r is None && final(self).spec_rest() == old(
                self,
            ).spec_rest(),
            old(self).spec_rest().len() > 0 ==> (r matches Some(f) && f@ == spec_next_field(
                old(self).spec_delim(),
                old(self).spec_rest(),
            ).0 && final(self).spec_rest() == spec_next_field(
                old(self).spec_delim(),
                old(self).spec_rest(),
            ).1),
    {
        if self.record.unicode_len() == 0 {
            None
        } else {
            let (field, rest) = next_field(self.delim, self.record);
            self.record = rest;
            Some(field)
        }
    }
}

/// Creates an enumerator over the fields of the given record separated
/// by `delim`. The whitespace around the record is trimmed.
pub fn enum_fields<'a>(delim: u8, record: &'a str) -> (r: EnumFields<'a>)
    ensures
        r.spec_delim() == delim as char,
        r.spec_rest() == spec_trim(record@),
{
    EnumFields { delim, record: trim(record) }
}

/// The fields that repeated `next_field` calls produce from the
/// remaining text `rem`.
pub open spec fn fields_from(d: char, rem: Seq<char>) -> Seq<Seq<char>>
    decreases rem.len(),
    via fields_from_decreases
{
    if rem.len() == 0 {
        Seq::empty()
    } else {
        let fr = spec_next_field(d, rem);
        seq![fr.0] + fields_from(d, fr.1)
    }
}

#[via_fn]
proof fn fields_from_decreases(d: char, rem: Seq<char>) {
    if rem.len() > 0 {
        lemma_trim_len(rem);
        lemma_find_first(d, spec_trim(rem));
    }
}

/// The fields of one whole record: what `enum_fields` enumerates.
pub open spec fn fields_of(d: char, s: Seq<char>) -> Seq<Seq<char>> {
    fields_from(d, spec_trim(s))
}

/// The substrings of `s` between the occurrences of `d`, untrimmed:
/// splitting at every occurrence, keeping empty pieces.
pub open spec fn raw_split(d: char, s: Seq<char>) -> Seq<Seq<char>>
    decreases s.len(),
    via raw_split_decreases
{
    match find_first(d, s) {
        None => seq![s],
        Some(i) => seq![s.take(i)] + raw_split(d, s.skip(i + 1)),
    }
}

#[via_fn]
proof fn raw_split_decreases(d: char, s: Seq<char>) {
    lemma_find_first(d, s);
}

/// The number of leading whitespace characters.
spec fn ws_prefix_len(s: Seq<char>) -> int
    decreases s.len(),
{
    if s.len() == 0 {
        0
    } else if is_ws_char(s[0]) {
        1 + ws_prefix_len(s.drop_first())
    } else {
        0
    }
}

proof fn lemma_ws_prefix(s: Seq<char>)
    ensures
        0 <= ws_prefix_len(s) <= s.len(),
        forall|j: int| 0 <= j < ws_prefix_len(s) ==> is_ws_char(s[j]),
        ws_prefix_len(s) < s.len() ==> !is_ws_char(s[ws_prefix_len(s)]),
        trim_front(s) == s.skip(ws_prefix_len(s)),
    decreases s.len(),
{
    if s.len() > 0 && is_ws_char(s[0]) {
        let t = s.drop_first();
        lemma_ws_prefix(t);
        assert(forall|j: int| 1 <= j < ws_prefix_len(s) ==> s[j] == t[j - 1]);
        assert(t.skip(ws_prefix_len(t)) =~= s.skip(ws_prefix_len(s)));
    } else {
        assert(s.skip(0) =~= s);
    }
}

/// Dropping a whitespace prefix does not change the trimmed front.
proof fn lemma_trim_front_drop_ws(u: Seq<char>, k: int)
    requires
        0 <= k <= u.len(),
        forall|j: int| 0 <= j < k ==> is_ws_char(u[j]),
    ensures
        trim_front(u) == trim_front(u.skip(k)),
    decreases k,
{
    if k == 0 {
        assert(u.skip(0) =~= u);
    } else {
        assert(is_ws_char(u[0]));
        let t = u.drop_first();
        assert(forall|j: int| 0 <= j < k - 1 ==> is_ws_char(t[j]));
        lemma_trim_front_drop_ws(t, k - 1);
        assert(t.skip(k - 1) =~= u.skip(k));
    }
}

/// A text of whitespace alone trims to nothing, and so yields no
/// fields at all.
pub proof fn lemma_all_ws_no_fields(d: char, s: Seq<char>)
    requires
        forall|j: int| 0 <= j < s.len() ==> is_ws_char(s[j]),
    ensures
        spec_trim(s).len() == 0,
        fields_of(d, s) == Seq::<Seq<char>>::empty(),
    decreases s.len(),
{
    if s.len() > 0 {
        let t = s.drop_first();
        lemma_all_ws_no_fields(d, t);
        assert(trim_front(s) == trim_front(t));
    }
}

/// A nonempty trim-back result never ends in whitespace.
proof fn lemma_trim_back_last(s: Seq<char>)
    requires
        trim_back(s).len() > 0,
    ensures
        !is_ws_char(trim_back(s).last()),
    decreases s.len(),
{
    if s.len() > 0 && is_ws_char(s.last()) {
        lemma_trim_back_last(s.drop_last());
    }
}

/// Enumerating the fields of a text whose trimmed form neither is
/// empty nor ends with the (non-whitespace) delimiter yields exactly
/// the substrings between the occurrences of the delimiter, each
/// trimmed.
proof fn lemma_fields_from_split(d: char, s: Seq<char>)
    requires
        !is_ws_char(d),
        s.len() > 0,
        !is_ws_char(s.last()),
        s.last() != d,
    ensures
        fields_from(d, s) == raw_split(d, s).map_values(|p: Seq<char>| spec_trim(p)),
    decreases s.len(),
{
    lemma_ws_prefix(s);
    let k = ws_prefix_len(s);
    let t = spec_trim(s);
    assert(k < s.len()) by {
        assert(!is_ws_char(s[s.len() - 1]));
    }
    assert(trim_front(s) == s.skip(k));
    assert(s.skip(k).len() > 0);
    assert(s.skip(k).last() == s.last());
    assert(trim_back(s.skip(k)) == s.skip(k));
    assert(t == s.skip(k));
    lemma_find_first(d, s);
    lemma_find_first(d, t);
    match find_first(d, s) {
        None => {
            assert(forall|j: int| 0 <= j < t.len() ==> t[j] == s[j + k] && s[j + k] != d);
            assert(find_first(d, t) is None) by {
                if let Some(i) = find_first(d, t) {
                    assert(t[i] == d);
                }
            }
            assert(fields_from(d, s) == seq![t] + fields_from(d, Seq::<char>::empty()));
            assert(fields_from(d, Seq::<char>::empty()) =~= Seq::<Seq<char>>::empty());
            assert(raw_split(d, s) == seq![s]);
            assert(fields_from(d, s) =~= raw_split(d, s).map_values(
                |p: Seq<char>| spec_trim(p),
            ));
        },
        Some(i) => {
            assert(k <= i) by {
                if i < k {
                    assert(is_ws_char(s[i]));
                }
            }
            assert(i < s.len() - 1) by {
                assert(s[s.len() - 1] != d);
            }
            // The first occurrence inside the trimmed text.
            assert(t[i - k] == s[i] && s[i] == d);
            assert(forall|j: int| 0 <= j < i - k ==> t[j] == s[j + k] && s[j + k] != d);
            let it = find_first(d, t);
            assert(it matches Some(j) && j == i - k) by {
                match it {
                    None => {
                        assert(t[i - k] != d);
                    },
                    Some(j) => {
                        if j < i - k {
                            assert(t[j] == d && t[j] != d);
                        }
                        if j > i - k {
                            assert(t[i - k] != d);
                        }
                    },
                }
            }
            // Head pieces agree after trimming.
            assert(t.take(i - k) =~= s.take(i).skip(k));
            assert(forall|j: int| 0 <= j < k ==> is_ws_char(s.take(i)[j]));
            lemma_trim_front_drop_ws(s.take(i), k);
            assert(spec_trim(t.take(i - k)) == spec_trim(s.take(i)));
            // Tails agree.
            assert(t.skip(i - k + 1) =~= s.skip(i + 1));
            let s2 = s.skip(i + 1);
            assert(s2.len() > 0);
            assert(s2.last() == s.last());
            lemma_fields_from_split(d, s2);
            let fr = spec_next_field(d, s);
            assert(fr.0 == spec_trim(s.take(i)) && fr.1 == s2);
            assert(fields_from(d, s) == seq![fr.0] + fields_from(d, s2));
            assert(raw_split(d, s) == seq![s.take(i)] + raw_split(d, s2));
            assert(fields_from(d, s) =~= raw_split(d, s).map_values(
                |p: Seq<char>| spec_trim(p),
            ));
        },
    }
}

/// Trimming keeps a text that starts with a non-whitespace character
/// nonempty.
proof fn lemma_trim_keeps_head(x: Seq<char>)
    requires
        x.len() > 0,
        !is_ws_char(x[0]),
    ensures
        spec_trim(x).len() > 0,
    decreases x.len(),
{
    assert(trim_front(x) == x);
    if is_ws_char(x.last()) {
        let y = x.drop_last();
        assert(y[0] == x[0]);
        lemma_trim_keeps_head(y);
        assert(trim_front(y) == y);
    }
}

/// Enumerating with a whitespace delimiter yields no empty field from
/// a text whose remainder is empty or ends in a non-whitespace
/// character.
proof fn lemma_fields_from_nonempty(d: char, rem: Seq<char>)
    requires
        is_ws_char(d),
        rem.len() == 0 || !is_ws_char(rem.last()),
    ensures
        forall|i: int|
            0 <= i < fields_from(d, rem).len() ==> #[trigger] fields_from(d, rem)[i].len() > 0,
    decreases rem.len(),
{
    if rem.len() > 0 {
        lemma_ws_prefix(rem);
        let k = ws_prefix_len(rem);
        assert(k < rem.len()) by {
            assert(!is_ws_char(rem[rem.len() - 1]));
        }
        let t1 = spec_trim(rem);
        assert(rem.skip(k).last() == rem.last());
        assert(trim_back(rem.skip(k)) == rem.skip(k));
        assert(t1 == rem.skip(k));
        assert(t1.len() > 0);
        assert(!is_ws_char(t1[0])) by {
            assert(t1[0] == rem[k]);
        }
        lemma_find_first(d, t1);
        lemma_trim_len(rem);
        let fr = spec_next_field(d, rem);
        match find_first(d, t1) {
            None => {
                assert(fr.0 == t1 && fr.1 =~= Seq::<char>::empty());
                assert(fields_from(d, rem) == seq![t1] + fields_from(d, fr.1));
                assert(fields_from(d, fr.1) =~= Seq::<Seq<char>>::empty());
            },
            Some(i) => {
                assert(i >= 1) by {
                    if i == 0 {
                        assert(is_ws_char(t1[0]));
                    }
                }
                assert(fr.0 == spec_trim(t1.take(i)) && fr.1 == t1.skip(i + 1));
                assert(t1.take(i)[0] == t1[0]);
                lemma_trim_keeps_head(t1.take(i));
                let rest = t1.skip(i + 1);
                if rest.len() > 0 {
                    assert(rest.last() == t1.last());
                    assert(t1.last() == rem.last());
                }
                lemma_fields_from_nonempty(d, rest);
                assert(fields_from(d, rem) == seq![fr.0] + fields_from(d, rest));
                let fs = fields_from(d, rem);
                assert forall|j: int| 0 <= j < fs.len() implies #[trigger] fs[j].len() > 0 by {
                    if j > 0 {
                        assert(fs[j] == fields_from(d, rest)[j - 1]);
                    }
                }
            },
        }
    }
}

/// For a whitespace delimiter, enumeration never yields an empty
/// field: runs of whitespace (the delimiter included) collapse into a
/// single separation instead of producing fields.
pub proof fn lemma_ws_delim_no_empty_fields(d: char, t: Seq<char>)
    requires
        is_ws_char(d),
    ensures
        forall|i: int|
            0 <= i < fields_of(d, t).len() ==> #[trigger] fields_of(d, t)[i].len() > 0,
{
    if spec_trim(t).len() > 0 {
        lemma_trim_back_last(trim_front(t));
    }
    lemma_fields_from_nonempty(d, spec_trim(t));
}

/// The tokenizer law: for a non-whitespace delimiter `d` and a text
/// whose trimmed form is nonempty and does not end with `d`, the
/// enumerated fields are exactly the substrings of the trimmed text
/// between the occurrences of `d`, each trimmed. Leading and repeated
/// delimiters are allowed; they yield empty fields.
///
/// The two exclusions are exactly where splitting does not mean this.
/// A whitespace delimiter is itself trimmed away, so a piece of
/// whitespace standing between two delimiter characters vanishes with
/// them instead of becoming an empty field: runs collapse, as
/// `lemma_ws_delim_no_empty_fields` states positively. A trailing
/// delimiter's empty last piece is dropped, not kept, while a
/// whitespace-only text yields no fields rather than one empty field.
pub proof fn lemma_enumerate_splits(d: char, text: Seq<char>)
    requires
        !is_ws_char(d),
        spec_trim(text).len() > 0,
        spec_trim(text).last() != d,
    ensures
        fields_of(d, text) == raw_split(d, spec_trim(text)).map_values(
            |p: Seq<char>| spec_trim(p),
        ),
{
    let s = spec_trim(text);
    lemma_trim_back_last(trim_front(text));
    assert(!is_ws_char(s.last()));
    lemma_fields_from_split(d, s);
}

/// Relies on `String::push`: appends the given character to the end of
/// the string.
pub assume_specification[ String::push ](s: &mut String, ch: char)
    ensures
        final(s)@ == old(s)@.push(ch),
;

/// The fields joined into one text with the delimiter between them.
pub open spec fn spec_join(d: char, fields: Seq<Seq<char>>) -> Seq<char>
    decreases fields.len(),
{
    if fields.len() == 0 {
        Seq::empty()
    } else if fields.len() == 1 {
        fields[0]
    } else {
        fields[0] + seq![d] + spec_join(d, fields.drop_first())
    }
}

/// The views of a slice of string slices.
pub open spec fn strs_view(fields: Seq<&str>) -> Seq<Seq<char>> {
    Seq::new(fields.len(), |i: int| fields[i]@)
}

/// Formats a record into a string with a delimiter.
///
/// Appends the given fields to `buf`, separated by the delimiter
/// character.
#[verifier::loop_isolation(false)]
pub fn format_fields_from_iter(delim: u8, record: &[&str], buf: &mut String)
    ensures
        final(buf)@ == old(buf)@ + spec_join(delim as char, strs_view(record@)),
{
    let ghost d = delim as char;
    let n = record.len();
    if n == 0 {
        proof {
            assert(final(buf)@ =~= old(buf)@ + spec_join(d, strs_view(record@)));
        }
        return ;
    }
    buf.append(record[0]);
    let mut i: usize = 1;
    while i < n
        invariant
            n == record@.len(),
            1 <= i <= n,
            buf@ == old(buf)@ + spec_join(d, strs_view(record@.take(i as int))),
        decreases n - i,
    {
        buf.push(delim as char);
        buf.append(record[i]);
        proof {
            lemma_join_push(d, strs_view(record@.take(i as int)), record@[i as int]@);
            assert(strs_view(record@.take(i + 1)) =~= strs_view(record@.take(i as int)).push(
                record@[i as int]@,
            ));
            assert(buf@ =~= old(buf)@ + spec_join(d, strs_view(record@.take(i + 1))));
        }
        i = i + 1;
    }
    proof {
        assert(record@.take(n as int) =~= record@);
    }
}

/// Appending one more field to a join appends a delimiter and the
/// field.
proof fn lemma_join_push(d: char, fields: Seq<Seq<char>>, f: Seq<char>)
    requires
        fields.len() > 0,
    ensures
        spec_join(d, fields.push(f)) == spec_join(d, fields) + seq![d] + f,
    decreases fields.len(),
{
    let p = fields.push(f);
    assert(p.len() >= 2);
    assert(spec_join(d, p) == p[0] + seq![d] + spec_join(d, p.drop_first()));
    if fields.len() == 1 {
        assert(p.drop_first() =~= seq![f]);
        assert(spec_join(d, seq![f]) == f);
        assert(spec_join(d, p) =~= fields[0] + seq![d] + f);
        assert(spec_join(d, fields) == fields[0]);
    } else {
        lemma_join_push(d, fields.drop_first(), f);
        assert(p.drop_first() =~= fields.drop_first().push(f));
        assert(spec_join(d, fields) == fields[0] + seq![d] + spec_join(d, fields.drop_first()));
        assert(spec_join(d, p) =~= spec_join(d, fields) + seq![d] + f);
    }
}

/// Formats a record: the fields joined with the delimiter.
pub fn format_fields(delim: u8, record: &[&str]) -> (r: String)
    ensures
        r@ == spec_join(delim as char, strs_view(record@)),
{
    let mut buf = String::new();
    format_fields_from_iter(delim, record, &mut buf);
    proof {
        assert(buf@ =~= spec_join(delim as char, strs_view(record@)));
    }
    buf
}

/// Holds when `out` is the view of a string that `f` may return for
/// the element `x`.
pub open spec fn produced_by<T, F: Fn(&T) -> String>(f: F, x: &T, out: Seq<char>) -> bool {
    exists|s: String| s@ == out && f.ensures((x,), s)
}

/// Formats a record into a string, converting each element with the
/// given function first.
///
/// The result joins, with the delimiter, one output of `f` for each
/// element of the record in order.
pub fn format_fields_with<T, F: Fn(&T) -> String>(delim: u8, record: &[T], f: F) -> (r: String)
    requires
        forall|i: int| 0 <= i < record@.len() ==> f.requires((&record@[i],)),
    ensures
        exists|outs: Seq<Seq<char>>|
            outs.len() == record@.len() && (forall|i: int|
                0 <= i < record@.len() ==> #[trigger] produced_by(f, &record@[i], outs[i]))
                && r@ == spec_join(delim as char, outs),
{
    let ghost d = delim as char;
    let mut texts: Vec<String> = Vec::new();
    let mut i: usize = 0;
    while i < record.len()
        invariant
            0 <= i <= record@.len(),
            texts@.len() == i,
            forall|k: int| 0 <= k < record@.len() ==> f.requires((&record@[k],)),
            forall|k: int| 0 <= k < i ==> f.ensures((&record@[k],), texts@[k]),
        decreases record@.len() - i,
    {
        let t = f(&record[i]);
        texts.push(t);
        i = i + 1;
    }
    let mut slices: Vec<&str> = Vec::new();
    let mut k: usize = 0;
    while k < texts.len()
        invariant
            0 <= k <= texts@.len(),
            slices@.len() == k,
            forall|j: int| 0 <= j < k ==> slices@[j]@ == texts@[j]@,
        decreases texts@.len() - k,
    {
        slices.push(texts[k].as_str());
        k = k + 1;
    }
    let mut buf = String::new();
    format_fields_from_iter(delim, slices.as_slice(), &mut buf);
    proof {
        let outs = Seq::new(texts@.len(), |j: int| texts@[j]@);
        assert(strs_view(slices@) =~= outs);
        assert(buf@ =~= spec_join(d, outs));
        assert forall|j: int| 0 <= j < record@.len() implies #[trigger] produced_by(
            f,
            &record@[j],
            outs[j],
        ) by {
            assert(texts@[j]@ == outs[j] && f.ensures((&record@[j],), texts@[j]));
        }
    }
    buf
}

} // verus!
