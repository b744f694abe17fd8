//! Text handling shared by the parsers: decoding git's output, splitting it
//! into lines and words, and the character classes that the splitting uses.
use vstd::prelude::*;
use vstd::utf8::*;

verus! {

broadcast use vstd::string::group_string_axioms;

/// `String::push` appends one character to the end of the string.
pub assume_specification[ std::string::String::push ](s: &mut std::string::String, ch: char)
    ensures
        final(s)@ == old(s)@.push(ch),
;

/// What `String::from_utf8_lossy` makes of a byte string: the bytes decoded as
/// UTF-8, each ill-formed sequence replaced by U+FFFD.
pub uninterp spec fn utf8_lossy(bytes: Seq<u8>) -> Seq<char>;

/// Calls `String::from_utf8_lossy`. Its documentation promises that valid
/// UTF-8 is decoded unchanged and that each invalid sequence becomes U+FFFD,
/// so a carriage return in the result comes from a `0x0D` byte of the input;
/// where the replacement characters go is left to the name `utf8_lossy`.
#[verifier::external_body]
pub(crate) fn decode_lossy(bytes: &[u8]) -> (s: String)
    ensures
        s@ == utf8_lossy(bytes@),
        valid_utf8(bytes@) ==> s@ == decode_utf8(bytes@),
        no_cr_byte(bytes@) ==> no_cr(s@),
{
    String::from_utf8_lossy(bytes).into_owned()
}

/// `bytes` holds no carriage return, `0x0D`.
pub open spec fn no_cr_byte(bytes: Seq<u8>) -> bool {
    forall|i: int| 0 <= i < bytes.len() ==> #[trigger] bytes[i] != 0x0d
}

/// `s` holds no carriage return.
pub open spec fn no_cr(s: Seq<char>) -> bool {
    forall|k: int| 0 <= k < s.len() ==> #[trigger] s[k] != '\r'
}

/// The text that `String::from_utf8_lossy` gives for `bytes`: valid UTF-8
/// decoded as it stands, anything else as the name `utf8_lossy` has it.
pub open spec fn decoded(bytes: Seq<u8>) -> Seq<char> {
    if valid_utf8(bytes) {
        decode_utf8(bytes)
    } else {
        utf8_lossy(bytes)
    }
}

/// The characters of a string slice, in order.
pub fn chars_of(s: &str) -> (v: Vec<char>)
    ensures
        v@ == s@,
{
    let mut v: Vec<char> = Vec::new();
    for c in it: s.chars()
        invariant
            v@ == it.seq().take(it.index() as int),
            it.seq() == s@,
    {
        v.push(c);
    }
    v
}

/// A string holding `chars[from..to]`.
pub fn string_from(chars: &Vec<char>, from: usize, to: usize) -> (s: String)
    requires
        from <= to <= chars.len(),
    ensures
        s@ == chars@.subrange(from as int, to as int),
{
    let mut s = String::new();
    let mut i = from;
    while i < to
        invariant
            from <= i <= to <= chars.len(),
            s@ == chars@.subrange(from as int, i as int),
        decreases to - i,
    {
        s.push(chars[i]);
        i = i + 1;
        assert(s@ =~= chars@.subrange(from as int, i as int));
    }
    s
}

/// The views of a sequence of strings.
pub open spec fn views(v: Seq<String>) -> Seq<Seq<char>> {
    v.map_values(|s: String| s@)
}

/// Unicode's `White_Space` property, which `char::is_whitespace` tests.
pub open spec fn is_whitespace(c: char) -> bool {
    let u = c as u32;
    ||| 0x09 <= u <= 0x0d
    ||| u == 0x20
    ||| u == 0x85
    ||| u == 0xa0
    ||| u == 0x1680
    ||| 0x2000 <= u <= 0x200a
    ||| u == 0x2028
    ||| u == 0x2029
    ||| u == 0x202f
    ||| u == 0x205f
    ||| u == 0x3000
}

/// Whether `c` is a whitespace character.
pub fn char_is_whitespace(c: char) -> (b: bool)
    ensures
        b == is_whitespace(c),
{
    let u = c as u32;
    (0x09 <= u && u <= 0x0d) || u == 0x20 || u == 0x85 || u == 0xa0 || u == 0x1680 || (0x2000 <= u
        && u <= 0x200a) || u == 0x2028 || u == 0x2029 || u == 0x202f || u == 0x205f || u == 0x3000
}

/// A line without the carriage return that ended it, if it had one.
pub open spec fn strip_cr(line: Seq<char>) -> Seq<char> {
    if line.len() > 0 && line.last() == '\r' {
        line.drop_last()
    } else {
        line
    }
}

/// Reading `s` from the left: the lines ended so far by `'\n'`, and the
/// characters of the line not yet ended.
pub open spec fn scan_lines(s: Seq<char>) -> (Seq<Seq<char>>, Seq<char>)
    decreases s.len(),
{
    if s.len() == 0 {
        (seq![], seq![])
    } else {
        let (done, cur) = scan_lines(s.drop_last());
        if s.last() == '\n' {
            (done.push(strip_cr(cur)), seq![])
        } else {
            (done, cur.push(s.last()))
        }
    }
}

/// The lines of `s`, as `str::lines` gives them: split at each `'\n'`, a
/// `'\r'` right before it dropped, and no empty line after a final `'\n'`.
pub open spec fn lines(s: Seq<char>) -> Seq<Seq<char>> {
    let (done, cur) = scan_lines(s);
    if cur.len() == 0 {
        done
    } else {
        done.push(cur)
    }
}

/// The lines of `s`.
pub fn lines_of(s: &str) -> (v: Vec<String>)
    ensures
        views(v@) == lines(s@),
{
    let chars = chars_of(s);
    let mut v: Vec<String> = Vec::new();
    let mut start: usize = 0;
    let mut i: usize = 0;
    while i < chars.len()
        invariant
            start <= i <= chars.len(),
            chars@ == s@,
            scan_lines(chars@.take(i as int)) == (views(v@), chars@.subrange(start as int, i as int)),
        decreases chars.len() - i,
    {
        assert(chars@.take(i + 1).drop_last() =~= chars@.take(i as int));
        if chars[i] == '\n' {
            let ghost cur = chars@.subrange(start as int, i as int);
            let end = if i > start && chars[i - 1] == '\r' {
                i - 1
            } else {
                i
            };
            assert(chars@.subrange(start as int, end as int) =~= strip_cr(cur));
            let line = string_from(&chars, start, end);
            let ghost old_v = v@;
            v.push(line);
            assert(views(v@) =~= views(old_v).push(strip_cr(cur)));
            start = i + 1;
        } else {
            assert(chars@.subrange(start as int, i + 1) =~= chars@.subrange(
                start as int,
                i as int,
            ).push(chars[i as int]));
        }
        i = i + 1;
        assert(chars@.subrange(start as int, i as int).len() == 0 ==> chars@.subrange(
            start as int,
            i as int,
        ) =~= seq![]);
    }
    assert(chars@.take(i as int) =~= chars@);
    if start < chars.len() {
        let line = string_from(&chars, start, chars.len());
        let ghost old_v = v@;
        v.push(line);
        assert(views(v@) =~= views(old_v).push(chars@.subrange(start as int, i as int)));
    }
    v
}

/// The non-empty strings of `ls`, in order.
pub open spec fn non_empty(ls: Seq<Seq<char>>) -> Seq<Seq<char>>
    decreases ls.len(),
{
    if ls.len() == 0 {
        seq![]
    } else if ls.last().len() == 0 {
        non_empty(ls.drop_last())
    } else {
        non_empty(ls.drop_last()).push(ls.last())
    }
}

/// The non-empty lines of `s`.
pub fn non_empty_lines(s: &str) -> (v: Vec<String>)
    ensures
        views(v@) == non_empty(lines(s@)),
{
    let all = lines_of(s);
    let mut v: Vec<String> = Vec::new();
    let mut i: usize = 0;
    while i < all.len()
        invariant
            i <= all.len(),
            views(all@) == lines(s@),
            views(v@) == non_empty(views(all@).take(i as int)),
        decreases all.len() - i,
    {
        assert(views(all@).take(i + 1).drop_last() =~= views(all@).take(i as int));
        let line = all[i].clone();
        if !line.as_str().is_empty() {
            let ghost old_v = v@;
            v.push(line);
            assert(views(v@) =~= views(old_v).push(all@[i as int]@));
        }
        i = i + 1;
    }
    assert(views(all@).take(i as int) =~= views(all@));
    v
}

/// Splits `bytes` into lines, dropping empty ones. The bytes are decoded
/// lossily first.
pub fn split_by_newline(bytes: &[u8]) -> (v: Vec<String>)
    ensures
        views(v@) == non_empty(lines(decoded(bytes@))),
        no_cr_byte(bytes@) ==> no_cr(decoded(bytes@)),
{
    let text = decode_lossy(bytes);
    non_empty_lines(text.as_str())
}

/// Reading `s` from the left: the words ended so far by whitespace, and the
/// characters of the word not yet ended.
pub open spec fn scan_words(s: Seq<char>) -> (Seq<Seq<char>>, Seq<char>)
    decreases s.len(),
{
    if s.len() == 0 {
        (seq![], seq![])
    } else {
        let (done, cur) = scan_words(s.drop_last());
        if !is_whitespace(s.last()) {
            (done, cur.push(s.last()))
        } else if cur.len() > 0 {
            (done.push(cur), seq![])
        } else {
            (done, seq![])
        }
    }
}

/// The words of `s`, as `str::split_whitespace` gives them: the maximal runs
/// of characters that are not whitespace.
pub open spec fn words(s: Seq<char>) -> Seq<Seq<char>> {
    let (done, cur) = scan_words(s);
    if cur.len() == 0 {
        done
    } else {
        done.push(cur)
    }
}

/// The first `n` items of `s`, or all of them where it has fewer.
pub open spec fn first_n<A>(s: Seq<A>, n: nat) -> Seq<A> {
    if n < s.len() {
        s.take(n as int)
    } else {
        s
    }
}

/// The first `n` items of `s` are at most `n`, and they begin `s`.
pub proof fn lemma_first_n_begins<A>(s: Seq<A>, n: nat)
    ensures
        first_n(s, n).len() <= n,
        first_n(s, n).len() <= s.len(),
        first_n(s, n).is_prefix_of(s),
{
    assert(first_n(s, n) =~= s.take(first_n(s, n).len() as int));
}

/// The first `n` words of `s`.
pub fn words_take(s: &str, n: usize) -> (v: Vec<String>)
    ensures
        views(v@) == first_n(words(s@), n as nat),
{
    let chars = chars_of(s);
    let mut v: Vec<String> = Vec::new();
    let mut start: usize = 0;
    let mut i: usize = 0;
    while i < chars.len()
        invariant
            start <= i <= chars.len(),
            chars@ == s@,
            scan_words(chars@.take(i as int)).0 == views(v@),
            scan_words(chars@.take(i as int)).1 == chars@.subrange(start as int, i as int),
        decreases chars.len() - i,
    {
        assert(chars@.take(i + 1).drop_last() =~= chars@.take(i as int));
        if !char_is_whitespace(chars[i]) {
            assert(chars@.subrange(start as int, i + 1) =~= chars@.subrange(
                start as int,
                i as int,
            ).push(chars[i as int]));
        } else {
            if start < i {
                let word = string_from(&chars, start, i);
                let ghost old_v = v@;
                v.push(word);
                assert(views(v@) =~= views(old_v).push(chars@.subrange(start as int, i as int)));
            }
            start = i + 1;
        }
        i = i + 1;
        assert(start == i ==> chars@.subrange(start as int, i as int) =~= seq![]);
    }
    assert(chars@.take(i as int) =~= chars@);
    if start < chars.len() {
        let word = string_from(&chars, start, chars.len());
        let ghost old_v = v@;
        v.push(word);
        assert(views(v@) =~= views(old_v).push(chars@.subrange(start as int, i as int)));
    }
    let ghost all = views(v@);
    if n < v.len() {
        v.truncate(n);
        assert(views(v@) =~= all.take(n as int));
    }
    v
}

/// The first `n` whitespace-separated words of `bytes`. The bytes are decoded
/// lossily first.
pub fn split_whitespace_take(bytes: &[u8], n: usize) -> (v: Vec<String>)
    ensures
        views(v@) == first_n(words(decoded(bytes@)), n as nat),
{
    let text = decode_lossy(bytes);
    words_take(text.as_str(), n)
}

/// `s` without its leading whitespace.
pub open spec fn trim_start(s: Seq<char>) -> Seq<char>
    decreases s.len(),
{
    if s.len() > 0 && is_whitespace(s[0]) {
        trim_start(s.drop_first())
    } else {
        s
    }
}

/// `s` without its trailing whitespace.
pub open spec fn trim_end(s: Seq<char>) -> Seq<char>
    decreases s.len(),
{
    if s.len() > 0 && is_whitespace(s.last()) {
        trim_end(s.drop_last())
    } else {
        s
    }
}

/// `s` without leading and trailing whitespace, as `str::trim` gives it.
pub open spec fn trim(s: Seq<char>) -> Seq<char> {
    trim_end(trim_start(s))
}

/// `s` without leading and trailing whitespace.
pub fn trimmed(s: &str) -> (t: String)
    ensures
        t@ == trim(s@),
{
    let chars = chars_of(s);
    let mut lo: usize = 0;
    assert(chars@.subrange(0, chars.len() as int) =~= chars@);
    while lo < chars.len() && char_is_whitespace(chars[lo])
        invariant
            lo <= chars.len(),
            chars@ == s@,
            trim_start(s@) == trim_start(chars@.subrange(lo as int, chars.len() as int)),
        decreases chars.len() - lo,
    {
        assert(chars@.subrange(lo as int, chars.len() as int).drop_first() =~= chars@.subrange(
            lo + 1,
            chars.len() as int,
        ));
        lo = lo + 1;
    }
    let mut hi: usize = chars.len();
    assert(trim_start(s@) == chars@.subrange(lo as int, hi as int));
    while hi > lo && char_is_whitespace(chars[hi - 1])
        invariant
            lo <= hi <= chars.len(),
            chars@ == s@,
            trim(s@) == trim_end(chars@.subrange(lo as int, hi as int)),
        decreases hi,
    {
        assert(chars@.subrange(lo as int, hi as int).drop_last() =~= chars@.subrange(
            lo as int,
            hi - 1,
        ));
        hi = hi - 1;
    }
    string_from(&chars, lo, hi)
}

/// Whether `s` begins with `prefix`.
pub fn starts_with(s: &str, prefix: &str) -> (b: bool)
    ensures
        b == prefix@.is_prefix_of(s@),
{
    let cs = chars_of(s);
    let ps = chars_of(prefix);
    if ps.len() > cs.len() {
        return false;
    }
    let mut i: usize = 0;
    while i < ps.len()
        invariant
            i <= ps.len() <= cs.len(),
            cs@ == s@,
            ps@ == prefix@,
            forall|j: int| 0 <= j < i ==> ps@[j] == cs@[j],
        decreases ps.len() - i,
    {
        if ps[i] != cs[i] {
            return false;
        }
        i = i + 1;
    }
    true
}

/// Whether `needle` occurs in `hay` starting at index `at`.
pub open spec fn occurs_at(hay: Seq<char>, needle: Seq<char>, at: int) -> bool {
    &&& 0 <= at
    &&& at + needle.len() <= hay.len()
    &&& hay.subrange(at, at + needle.len()) == needle
}

/// Whether `needle` occurs anywhere in `hay`.
pub open spec fn contains(hay: Seq<char>, needle: Seq<char>) -> bool {
    exists|at: int| occurs_at(hay, needle, at)
}

/// The first index at which `needle` occurs in `hay`, if it occurs.
pub fn find(hay: &Vec<char>, needle: &Vec<char>) -> (r: Option<usize>)
    ensures
        match r {
            Some(at) => occurs_at(hay@, needle@, at as int) && forall|k: int|
                0 <= k < at ==> !occurs_at(hay@, needle@, k),
            None => !contains(hay@, needle@),
        },
{
    if needle.len() > hay.len() {
        return None;
    }
    let last = hay.len() - needle.len();
    let mut at: usize = 0;
    while at <= last
        invariant
            last == hay.len() - needle.len(),
            forall|k: int| 0 <= k < at ==> !occurs_at(hay@, needle@, k),
        decreases last + 1 - at,
    {
        let mut j: usize = 0;
        let mut same = true;
        while j < needle.len()
            invariant
                at <= last,
                last == hay.len() - needle.len(),
                j <= needle.len(),
                same == forall|m: int| 0 <= m < j ==> hay@[at + m] == needle@[m],
            decreases needle.len() - j,
        {
            if hay[at + j] != needle[j] {
                same = false;
            }
            j = j + 1;
        }
        if same {
            assert(hay@.subrange(at as int, at + needle.len()) =~= needle@);
            return Some(at);
        }
        assert(!(hay@.subrange(at as int, at + needle.len()) =~= needle@));
        at = at + 1;
    }
    assert(!contains(hay@, needle@));
    None
}

/// The first index at which `needle` occurs in `hay`, where it occurs.
pub open spec fn first_occurrence(hay: Seq<char>, needle: Seq<char>) -> int {
    choose|at: int|
        occurs_at(hay, needle, at) && forall|k: int| 0 <= k < at ==> !occurs_at(hay, needle, k)
}

/// What follows the first occurrence of `needle` in `hay`, as the second half
/// of `str::split_once` gives it; `None` where `needle` does not occur.
pub open spec fn after_first(hay: Seq<char>, needle: Seq<char>) -> Option<Seq<char>> {
    if contains(hay, needle) {
        Some(hay.skip(first_occurrence(hay, needle) + needle.len()))
    } else {
        None
    }
}

/// What follows the first occurrence of `needle` in `hay`, if it occurs.
pub fn split_once_rest(hay: &str, needle: &Vec<char>) -> (r: Option<String>)
    ensures
        option_chars(r) == after_first(hay@, needle@),
{
    let chars = chars_of(hay);
    let found = find(&chars, needle);
    match found {
        Some(at) => {
            assert(occurs_at(chars@, needle@, at as int));
            assert(at + needle.len() <= chars.len());
            proof {
                // The first occurrence is unique: `at` is one, and none comes before it.
                let f = first_occurrence(hay@, needle@);
                assert(occurs_at(hay@, needle@, f) && forall|k: int|
                    0 <= k < f ==> !occurs_at(hay@, needle@, k));
                assert(f == at);
            }
            let rest = string_from(&chars, at + needle.len(), chars.len());
            assert(rest@ =~= hay@.skip(at + needle.len()));
            Some(rest)
        },
        None => None,
    }
}

/// The text of an optional string.
pub open spec fn option_chars(o: Option<String>) -> Option<Seq<char>> {
    match o {
        Some(s) => Some(s@),
        None => None,
    }
}

/// No line of `s` holds a newline.
pub proof fn lemma_lines_hold_no_newline(s: Seq<char>)
    ensures
        forall|i: int, k: int|
            0 <= i < lines(s).len() && 0 <= k < lines(s)[i].len() ==> #[trigger] lines(s)[i][k]
                != '\n',
{
    lemma_scan_lines_hold_no_newline(s);
}

proof fn lemma_scan_lines_hold_no_newline(s: Seq<char>)
    ensures
        forall|i: int, k: int|
            0 <= i < scan_lines(s).0.len() && 0 <= k < scan_lines(s).0[i].len()
                ==> #[trigger] scan_lines(s).0[i][k] != '\n',
        forall|k: int| 0 <= k < scan_lines(s).1.len() ==> #[trigger] scan_lines(s).1[k] != '\n',
    decreases s.len(),
{
    if s.len() > 0 {
        lemma_scan_lines_hold_no_newline(s.drop_last());
        let (done, cur) = scan_lines(s.drop_last());
        if s.last() == '\n' {
            assert forall|i: int, k: int|
                0 <= i < scan_lines(s).0.len() && 0 <= k < scan_lines(s).0[i].len()
                    implies #[trigger] scan_lines(s).0[i][k] != '\n' by {
                if i == done.len() {
                    assert(strip_cr(cur)[k] == cur[k]);
                } else {
                    assert(scan_lines(s).0[i] == done[i]);
                }
            }
        }
    }
}

/// The lines `ls` joined into one text, a `'\n'` between each two.
pub open spec fn join_lines(ls: Seq<Seq<char>>) -> Seq<char>
    decreases ls.len(),
{
    if ls.len() == 0 {
        seq![]
    } else if ls.len() == 1 {
        ls[0]
    } else {
        join_lines(ls.drop_last()) + seq!['\n'] + ls.last()
    }
}

/// A line as splitting gives it: not empty and without `'\n'`.
pub open spec fn plain_line(l: Seq<char>) -> bool {
    &&& l.len() > 0
    &&& forall|k: int| 0 <= k < l.len() ==> #[trigger] l[k] != '\n'
}

/// No line of `ls` but the last ends in `'\r'`, which splitting would take
/// for part of the line ending after it.
pub open spec fn no_cr_before_newline(ls: Seq<Seq<char>>) -> bool {
    forall|i: int| 0 <= i < ls.len() - 1 ==> (#[trigger] ls[i]).last() != '\r'
}

/// Characters without `'\n'` added to the text read so far extend the line
/// not yet ended.
proof fn lemma_scan_lines_append(s: Seq<char>, t: Seq<char>)
    requires
        forall|k: int| 0 <= k < t.len() ==> #[trigger] t[k] != '\n',
    ensures
        scan_lines(s + t) == (scan_lines(s).0, scan_lines(s).1 + t),
    decreases t.len(),
{
    if t.len() == 0 {
        assert(s + t =~= s);
        assert(scan_lines(s).1 + t =~= scan_lines(s).1);
    } else {
        lemma_scan_lines_append(s, t.drop_last());
        assert((s + t).drop_last() =~= s + t.drop_last());
        assert((s + t).last() == t.last());
        assert((scan_lines(s).1 + t.drop_last()).push(t.last()) =~= scan_lines(s).1 + t);
    }
}

/// Reading joined lines leaves all but the last ended, and the last one open.
proof fn lemma_scan_joined_lines(ls: Seq<Seq<char>>)
    requires
        ls.len() > 0,
        forall|i: int| 0 <= i < ls.len() ==> plain_line(#[trigger] ls[i]),
        no_cr_before_newline(ls),
    ensures
        scan_lines(join_lines(ls)) == (ls.drop_last(), ls.last()),
    decreases ls.len(),
{
    if ls.len() == 1 {
        lemma_scan_lines_append(seq![], ls[0]);
        assert(Seq::<char>::empty() + ls[0] =~= ls[0]);
        assert(ls.drop_last() =~= Seq::<Seq<char>>::empty());
        assert(plain_line(ls[0]));
    } else {
        let prev = ls.drop_last();
        assert forall|i: int| 0 <= i < prev.len() implies plain_line(#[trigger] prev[i]) by {
            assert(prev[i] == ls[i]);
        }
        assert forall|i: int| 0 <= i < prev.len() - 1 implies (#[trigger] prev[i]).last() != '\r' by {
            assert(prev[i] == ls[i]);
        }
        assert(ls[prev.len() - 1].last() != '\r');
        lemma_scan_joined_lines(prev);
        let j = join_lines(prev) + seq!['\n'];
        assert(j.drop_last() =~= join_lines(prev));
        assert(plain_line(prev[prev.len() - 1]));
        assert(strip_cr(prev.last()) == prev.last());
        assert(prev.drop_last().push(prev.last()) =~= prev);
        assert(scan_lines(j) == (prev, Seq::<char>::empty()));
        assert(plain_line(ls[ls.len() - 1]));
        lemma_scan_lines_append(j, ls.last());
        assert(Seq::<char>::empty() + ls.last() =~= ls.last());
    }
}

/// Where no line is empty, keeping the non-empty lines keeps them all.
proof fn lemma_non_empty_keeps_all(ls: Seq<Seq<char>>)
    requires
        forall|i: int| 0 <= i < ls.len() ==> (#[trigger] ls[i]).len() > 0,
    ensures
        non_empty(ls) == ls,
    decreases ls.len(),
{
    if ls.len() > 0 {
        let prev = ls.drop_last();
        assert forall|i: int| 0 <= i < prev.len() implies (#[trigger] prev[i]).len() > 0 by {
            assert(prev[i] == ls[i]);
        }
        lemma_non_empty_keeps_all(prev);
        assert(ls[ls.len() - 1].len() > 0);
        assert(prev.push(ls.last()) =~= ls);
    }
}

/// Every line that `split_by_newline` keeps of a text is not empty and
/// holds no `'\n'`.
pub proof fn lemma_kept_lines_are_plain(s: Seq<char>)
    ensures
        forall|i: int| 0 <= i < non_empty(lines(s)).len() ==> plain_line(
            #[trigger] non_empty(lines(s))[i],
        ),
{
    lemma_non_empty_items(lines(s));
    lemma_lines_hold_no_newline(s);
    assert forall|i: int| 0 <= i < non_empty(lines(s)).len() implies plain_line(
        #[trigger] non_empty(lines(s))[i],
    ) by {
        let j = choose|j: int|
            0 <= j < lines(s).len() && lines(s)[j] == #[trigger] non_empty(lines(s))[i];
        assert forall|k: int| 0 <= k < non_empty(lines(s))[i].len() implies #[trigger] non_empty(
            lines(s),
        )[i][k] != '\n' by {
            assert(lines(s)[j][k] != '\n');
        }
    }
}

/// Splitting a text without carriage returns into its non-empty lines,
/// joining them by `'\n'` and splitting the UTF-8 bytes of that again gives
/// the same lines: what `split_by_newline` keeps of bytes without `0x0D`
/// comes back unchanged from the bytes of its lines joined.
pub proof fn lemma_split_rejoin(text: Seq<char>)
    requires
        no_cr(text),
    ensures
        non_empty(lines(decoded(encode_utf8(join_lines(non_empty(lines(text))))))) == non_empty(
            lines(text),
        ),
{
    let r = non_empty(lines(text));
    lemma_kept_lines_are_plain(text);
    lemma_lines_without_cr(text);
    lemma_non_empty_items(lines(text));
    assert forall|i: int| 0 <= i < r.len() - 1 implies (#[trigger] r[i]).last() != '\r' by {
        let j = choose|j: int| 0 <= j < lines(text).len() && lines(text)[j] == r[i];
        assert(no_cr(lines(text)[j]));
        assert(plain_line(r[i]));
        assert(r[i][r[i].len() - 1] != '\r');
    }
    lemma_split_joined_lines(r);
}

/// Splitting lines joined by `'\n'` gives them back, where each is not
/// empty and holds no `'\n'`, and none but the last ends in `'\r'`; so does
/// splitting the UTF-8 bytes of the joined text, which is what
/// `split_by_newline` reads.
pub proof fn lemma_split_joined_lines(ls: Seq<Seq<char>>)
    requires
        forall|i: int| 0 <= i < ls.len() ==> plain_line(#[trigger] ls[i]),
        no_cr_before_newline(ls),
    ensures
        non_empty(lines(join_lines(ls))) == ls,
        non_empty(lines(decoded(encode_utf8(join_lines(ls))))) == ls,
{
    if ls.len() == 0 {
        assert(lines(join_lines(ls)) =~= Seq::<Seq<char>>::empty());
        assert(ls =~= Seq::<Seq<char>>::empty());
    } else {
        lemma_scan_joined_lines(ls);
        assert(plain_line(ls[ls.len() - 1]));
        assert(ls.drop_last().push(ls.last()) =~= ls);
        assert(lines(join_lines(ls)) == ls);
        assert forall|i: int| 0 <= i < ls.len() implies (#[trigger] ls[i]).len() > 0 by {
            assert(plain_line(ls[i]));
        }
        lemma_non_empty_keeps_all(ls);
    }
    encode_utf8_valid_utf8(join_lines(ls));
    encode_utf8_decode_utf8(join_lines(ls));
}

/// Encoding a text that holds a carriage return gives a `0x0D` byte.
proof fn lemma_encode_keeps_cr(s: Seq<char>, k: int)
    requires
        0 <= k < s.len(),
        s[k] == '\r',
    ensures
        !no_cr_byte(encode_utf8(s)),
    decreases k,
{
    let head = encode_scalar(s[0] as u32);
    let rest = encode_utf8(s.drop_first());
    assert(encode_utf8(s) == head + rest);
    if k == 0 {
        assert((13u32 & 0x7Fu32) as u8 == 13u8) by (bit_vector);
        assert(has_width_1_encoding(s[0] as u32));
        assert(head == seq![13u8]);
        assert(encode_utf8(s)[0] == 0x0d);
    } else {
        assert(s.drop_first()[k - 1] == '\r');
        lemma_encode_keeps_cr(s.drop_first(), k - 1);
        let i = choose|i: int| 0 <= i < rest.len() && rest[i] == 0x0d;
        assert(encode_utf8(s)[head.len() + i] == 0x0d);
    }
}

/// Valid UTF-8 without a `0x0D` byte decodes to a text without a carriage
/// return.
pub proof fn lemma_valid_utf8_without_cr(bytes: Seq<u8>)
    requires
        valid_utf8(bytes),
        no_cr_byte(bytes),
    ensures
        no_cr(decoded(bytes)),
{
    if !no_cr(decode_utf8(bytes)) {
        let k = choose|k: int| 0 <= k < decode_utf8(bytes).len() && decode_utf8(bytes)[k] == '\r';
        lemma_encode_keeps_cr(decode_utf8(bytes), k);
        decode_utf8_encode_utf8(bytes);
    }
}

/// No line of a text without a carriage return holds one.
proof fn lemma_lines_without_cr(s: Seq<char>)
    requires
        no_cr(s),
    ensures
        forall|i: int| 0 <= i < lines(s).len() ==> no_cr(#[trigger] lines(s)[i]),
{
    lemma_scan_lines_without_cr(s);
}

proof fn lemma_scan_lines_without_cr(s: Seq<char>)
    requires
        no_cr(s),
    ensures
        forall|i: int| 0 <= i < scan_lines(s).0.len() ==> no_cr(#[trigger] scan_lines(s).0[i]),
        no_cr(scan_lines(s).1),
    decreases s.len(),
{
    if s.len() > 0 {
        assert(no_cr(s.drop_last())) by {
            assert forall|k: int| 0 <= k < s.drop_last().len() implies #[trigger] s.drop_last()[k]
                != '\r' by {
                assert(s.drop_last()[k] == s[k]);
            }
        }
        lemma_scan_lines_without_cr(s.drop_last());
        let (done, cur) = scan_lines(s.drop_last());
        if s.last() == '\n' {
            assert forall|i: int| 0 <= i < scan_lines(s).0.len() implies no_cr(
                #[trigger] scan_lines(s).0[i],
            ) by {
                if i == done.len() {
                    assert forall|k: int| 0 <= k < strip_cr(cur).len() implies #[trigger] strip_cr(
                        cur,
                    )[k] != '\r' by {
                        assert(strip_cr(cur)[k] == cur[k]);
                    }
                } else {
                    assert(scan_lines(s).0[i] == done[i]);
                }
            }
        } else {
            assert(s[s.len() - 1] != '\r');
            assert forall|k: int| 0 <= k < cur.push(s.last()).len() implies #[trigger] cur.push(
                s.last(),
            )[k] != '\r' by {
                if k < cur.len() {
                    assert(cur.push(s.last())[k] == cur[k]);
                }
            }
        }
    }
}

/// Every item of `non_empty(ls)` is non-empty, and is one of `ls`.
pub proof fn lemma_non_empty_items(ls: Seq<Seq<char>>)
    ensures
        forall|i: int| 0 <= i < non_empty(ls).len() ==> (#[trigger] non_empty(ls)[i]).len() > 0,
        forall|i: int|
            0 <= i < non_empty(ls).len() ==> exists|j: int|
                0 <= j < ls.len() && ls[j] == #[trigger] non_empty(ls)[i],
    decreases ls.len(),
{
    if ls.len() > 0 {
        lemma_non_empty_items(ls.drop_last());
        let prev = non_empty(ls.drop_last());
        assert forall|i: int| 0 <= i < non_empty(ls).len() implies exists|j: int|
            0 <= j < ls.len() && ls[j] == #[trigger] non_empty(ls)[i] by {
            if i < prev.len() {
                assert(non_empty(ls)[i] == prev[i]);
                let j = choose|j: int| 0 <= j < ls.drop_last().len() && ls.drop_last()[j] == prev[i];
                assert(ls[j] == prev[i]);
            } else {
                assert(ls[ls.len() - 1] == non_empty(ls)[i]);
            }
        }
        assert forall|i: int| 0 <= i < non_empty(ls).len() implies (#[trigger] non_empty(
            ls,
        )[i]).len() > 0 by {
            if i < prev.len() {
                assert(non_empty(ls)[i] == prev[i]);
            }
        }
    }
}

/// Every word of `s` is non-empty and holds no whitespace.
pub proof fn lemma_words_are_clean(s: Seq<char>)
    ensures
        forall|i: int| 0 <= i < words(s).len() ==> (#[trigger] words(s)[i]).len() > 0,
        forall|i: int, k: int|
            0 <= i < words(s).len() && 0 <= k < words(s)[i].len() ==> !is_whitespace(
                #[trigger] words(s)[i][k],
            ),
{
    lemma_scan_words_are_clean(s);
}

proof fn lemma_scan_words_are_clean(s: Seq<char>)
    ensures
        forall|i: int| 0 <= i < scan_words(s).0.len() ==> (#[trigger] scan_words(s).0[i]).len() > 0,
        forall|i: int, k: int|
            0 <= i < scan_words(s).0.len() && 0 <= k < scan_words(s).0[i].len() ==> !is_whitespace(
                #[trigger] scan_words(s).0[i][k],
            ),
        forall|k: int| 0 <= k < scan_words(s).1.len() ==> !is_whitespace(#[trigger] scan_words(s).1[k]),
    decreases s.len(),
{
    if s.len() > 0 {
        lemma_scan_words_are_clean(s.drop_last());
        let (done, cur) = scan_words(s.drop_last());
        assert forall|i: int| 0 <= i < scan_words(s).0.len() implies (#[trigger] scan_words(
            s,
        ).0[i]).len() > 0 by {
            if i < done.len() {
                assert(scan_words(s).0[i] == done[i]);
            }
        }
        assert forall|i: int, k: int|
            0 <= i < scan_words(s).0.len() && 0 <= k < scan_words(s).0[i].len()
                implies !is_whitespace(#[trigger] scan_words(s).0[i][k]) by {
            if i < done.len() {
                assert(scan_words(s).0[i] == done[i]);
            } else {
                assert(scan_words(s).0[i] == cur);
            }
        }
    }
}

/// What `str::to_lowercase` makes of a string: each character mapped to its
/// lowercase by Unicode's rules.
pub uninterp spec fn lowercase(s: Seq<char>) -> Seq<char>;

/// Calls `str::to_lowercase`; the mapping is left to the name `lowercase`.
#[verifier::external_body]
pub(crate) fn to_lowercase(s: &str) -> (r: String)
    ensures
        r@ == lowercase(s@),
{
    s.to_lowercase()
}

} // verus!
