//! Text handling for terminal output: decoding raw bytes, splitting them into
//! lines, removing ANSI escape sequences and carriage returns, and rendering
//! numbers and line ranges back into text.
use vstd::prelude::*;
use vstd::utf8::{decode_first_scalar, length_of_first_scalar, pop_first_scalar, valid_first_scalar, decode_utf8, valid_utf8};

verus! {

/// The escape character that opens an ANSI control sequence.
pub open spec fn esc() -> char {
    '\x1b'
}

/// Whether `c` is an ASCII letter, the class of characters that ends an escape sequence.
pub open spec fn is_ascii_letter(c: char) -> bool {
    ('a' <= c && c <= 'z') || ('A' <= c && c <= 'Z')
}

/// Whether the escape filter is inside an escape sequence after reading `s`.
pub open spec fn in_escape_after(s: Seq<char>) -> bool
    decreases s.len(),
{
    if s.len() == 0 {
        false
    } else {
        let c = s.last();
        if c == esc() {
            true
        } else if in_escape_after(s.drop_last()) {
            !is_ascii_letter(c)
        } else {
            false
        }
    }
}

/// The text that remains of `s` once every escape sequence (from `ESC` up to and
/// including the next ASCII letter) and every carriage return is removed.
pub open spec fn strip_escapes(s: Seq<char>) -> Seq<char>
    decreases s.len(),
{
    if s.len() == 0 {
        Seq::empty()
    } else {
        let c = s.last();
        let prev = strip_escapes(s.drop_last());
        if c == esc() || in_escape_after(s.drop_last()) || c == '\r' {
            prev
        } else {
            prev.push(c)
        }
    }
}

/// The pieces of `s` between newline characters; there is always at least one.
pub open spec fn split_lines(s: Seq<char>) -> Seq<Seq<char>>
    decreases s.len(),
{
    if s.len() == 0 {
        seq![Seq::empty()]
    } else {
        let p = split_lines(s.drop_last());
        if s.last() == '\n' {
            p.push(Seq::empty())
        } else {
            p.update(p.len() - 1, p.last().push(s.last()))
        }
    }
}

/// Each piece of `s` between newlines, with its escape sequences removed.
pub open spec fn clean_lines(s: Seq<char>) -> Seq<Seq<char>> {
    split_lines(s).map_values(|p: Seq<char>| strip_escapes(p))
}

/// The decimal digit character for `d`.
pub open spec fn digit_char(d: nat) -> char {
    ((48 + d) as u8) as char
}

/// The decimal representation of `n`, without leading zeros.
pub open spec fn decimal(n: nat) -> Seq<char>
    decreases n,
{
    if n < 10 {
        seq![digit_char(n)]
    } else {
        decimal(n / 10).push(digit_char(n % 10))
    }
}

/// `lines` joined with a newline between each two of them.
pub open spec fn join_lines(lines: Seq<Seq<char>>) -> Seq<char>
    decreases lines.len(),
{
    if lines.len() == 0 {
        Seq::empty()
    } else if lines.len() == 1 {
        lines[0]
    } else {
        join_lines(lines.drop_last()) + seq!['\n'] + lines.last()
    }
}

/// `old` with the first of `pieces` continuing its last line and the others
/// added as new lines; `pieces` itself where `old` is empty.
pub open spec fn merge_lines(old: Seq<Seq<char>>, pieces: Seq<Seq<char>>) -> Seq<Seq<char>> {
    if old.len() > 0 && pieces.len() > 0 {
        old.drop_last().push(old.last() + pieces[0]) + pieces.drop_first()
    } else {
        old + pieces
    }
}

/// The text that `String::from_utf8_lossy` makes of `bytes`.
pub uninterp spec fn utf8_lossy(bytes: Seq<u8>) -> Seq<char>;

/// Each byte of `bytes` read as the character with the same code.
pub open spec fn ascii_chars(bytes: Seq<u8>) -> Seq<char> {
    bytes.map_values(|b: u8| b as char)
}

/// Whether every byte of `bytes` is below 128.
pub open spec fn all_ascii(bytes: Seq<u8>) -> bool {
    forall|i: int| 0 <= i < bytes.len() ==> bytes[i] < 128
}

/// Decodes `bytes` with `String::from_utf8_lossy` (std), as characters.
///
/// Trusted: the result is what `from_utf8_lossy` gives for these bytes, and,
/// as its documentation says, valid UTF-8 comes through unchanged: it decodes
/// to the characters that it encodes; only invalid sequences are replaced, by
/// U+FFFD. A newline byte is a valid character on its own and never part of an
/// invalid sequence, so the text holds exactly as many newlines as the bytes.
/// Which replacements stand where is left to the name `utf8_lossy`.
#[verifier::external_body]
pub(crate) fn decode_lossy(bytes: &[u8]) -> (text: Vec<char>)
    ensures
        text@ == utf8_lossy(bytes@),
        valid_utf8(bytes@) ==> text@ == decode_utf8(bytes@),
        count_newlines(text@) == count_newline_bytes(bytes@),
{
    String::from_utf8_lossy(bytes).chars().collect()
}

/// Appends `c` to `s` with `String::push` (std).
///
/// Trusted: afterwards `s` is its old text followed by `c`.
#[verifier::external_body]
fn push_char(s: &mut String, c: char)
    ensures
        final(s)@ == old(s)@.push(c),
{
    s.push(c);
}

fn ascii_letter(c: char) -> (b: bool)
    ensures
        b == is_ascii_letter(c),
{
    ('a' <= c && c <= 'z') || ('A' <= c && c <= 'Z')
}

/// Removes ANSI escape sequences and carriage returns from `s`.
///
/// An escape sequence runs from the escape character up to and including the
/// next ASCII letter; an unfinished one at the end is dropped too.
pub fn strip_ansi_escapes(s: &[char]) -> (result: String)
    ensures
        result@ == strip_escapes(s@),
        !result@.contains(esc()),
        !result@.contains('\r'),
{
    let mut result = String::new();
    let mut in_escape = false;
    let n = s.len();
    let mut i: usize = 0;
    while i < n
        invariant
            n == s@.len(),
            i <= n,
            result@ == strip_escapes(s@.take(i as int)),
            in_escape == in_escape_after(s@.take(i as int)),
            !result@.contains(esc()),
            !result@.contains('\r'),
        decreases n - i,
    {
        let c = s[i];
        proof {
            assert(s@.take(i + 1).drop_last() =~= s@.take(i as int));
            assert(s@.take(i + 1).last() == c);
        }
        if c == '\x1b' {
            in_escape = true;
        } else if in_escape {
            if ascii_letter(c) {
                in_escape = false;
            }
        } else if c != '\r' {
            let ghost before = result@;
            push_char(&mut result, c);
            proof {
                assert forall|x: char| result@.contains(x) implies x != esc() && x != '\r' by {
                    let k = choose|k: int| 0 <= k < result@.len() && result@[k] == x;
                    if k < before.len() {
                        assert(before[k] == x);
                    }
                }
            }
        }
        i = i + 1;
    }
    assert(s@.take(n as int) =~= s@);
    result
}

/// Splits `text` at each newline and removes the escape sequences of each piece.
pub fn split_clean_lines(text: &[char]) -> (pieces: Vec<String>)
    ensures
        pieces.deep_view() == clean_lines(text@),
{
    let n = text.len();
    let mut pieces: Vec<String> = Vec::new();
    let ghost mut raw: Seq<Seq<char>> = Seq::empty();
    let mut lo: usize = 0;
    let mut i: usize = 0;
    assert(text@.take(0) =~= Seq::<char>::empty());
    assert(split_lines(text@.take(0)) =~= raw.push(text@.subrange(0, 0)));
    while i < n
        invariant
            n == text@.len(),
            lo <= i <= n,
            split_lines(text@.take(i as int)) == raw.push(text@.subrange(lo as int, i as int)),
            pieces.deep_view() == raw.map_values(|p: Seq<char>| strip_escapes(p)),
        decreases n - i,
    {
        proof {
            assert(text@.take(i + 1).drop_last() =~= text@.take(i as int));
        }
        if text[i] == '\n' {
            let piece = strip_ansi_escapes(&text[lo..i]);
            let ghost old_pieces = pieces.deep_view();
            pieces.push(piece);
            proof {
                assert(pieces.deep_view() =~= old_pieces.push(piece@));
                raw = raw.push(text@.subrange(lo as int, i as int));
                assert(text@.subrange(i + 1, i + 1) =~= Seq::<char>::empty());
                assert(raw.map_values(|p: Seq<char>| strip_escapes(p)) =~= old_pieces.push(piece@));
            }
            lo = i + 1;
        } else {
            proof {
                assert(text@.subrange(lo as int, i as int).push(text@[i as int]) =~= text@.subrange(lo as int, i + 1));
            }
        }
        i = i + 1;
    }
    let piece = strip_ansi_escapes(&text[lo..n]);
    let ghost old_pieces = pieces.deep_view();
    pieces.push(piece);
    proof {
        assert(text@.take(n as int) =~= text@);
        assert(pieces.deep_view() =~= old_pieces.push(piece@));
        let all = raw.push(text@.subrange(lo as int, n as int));
        assert(all.map_values(|p: Seq<char>| strip_escapes(p)) =~= old_pieces.push(piece@));
    }
    pieces
}

fn digit(d: usize) -> (c: char)
    requires
        d < 10,
    ensures
        c == digit_char(d as nat),
{
    let b: u8 = 48u8 + (d as u8);
    b as char
}

/// Appends the decimal representation of `n` to `s`.
pub fn push_decimal(s: &mut String, n: usize)
    ensures
        final(s)@ == old(s)@ + decimal(n as nat),
    decreases n,
{
    if n < 10 {
        push_char(s, digit(n));
        assert(final(s)@ =~= old(s)@ + decimal(n as nat));
    } else {
        push_decimal(s, n / 10);
        push_char(s, digit(n % 10));
        assert(final(s)@ =~= old(s)@ + decimal(n as nat));
    }
}

/// Appends the lines `lines[lo..hi]`, joined by newlines, to `s`.
pub fn push_joined(s: &mut String, lines: &Vec<String>, lo: usize, hi: usize)
    requires
        lo <= hi <= lines@.len(),
    ensures
        final(s)@ == old(s)@ + join_lines(lines.deep_view().subrange(lo as int, hi as int)),
{
    let ghost dv = lines.deep_view();
    let mut i: usize = lo;
    while i < hi
        invariant
            lo <= i <= hi <= lines@.len(),
            dv == lines.deep_view(),
            s@ == old(s)@ + join_lines(dv.subrange(lo as int, i as int)),
        decreases hi - i,
    {
        let ghost prev = s@;
        if i > lo {
            s.append("\n");
            proof { reveal_strlit("\n"); }
        }
        s.append(lines[i].as_str());
        proof {
            let part = dv.subrange(lo as int, i + 1);
            assert(part.drop_last() =~= dv.subrange(lo as int, i as int));
            assert(part.last() == lines@[i as int]@);
            if i == lo {
                assert(part.len() == 1);
            }
            assert(s@ =~= old(s)@ + join_lines(part));
        }
        i = i + 1;
    }
}

} // verus!

verus! {

/// What the escape filter leaves contains no escape character and no carriage return.
pub proof fn lemma_strip_clean(s: Seq<char>)
    ensures
        !strip_escapes(s).contains(esc()),
        !strip_escapes(s).contains('\r'),
    decreases s.len(),
{
    if s.len() > 0 {
        lemma_strip_clean(s.drop_last());
        let prev = strip_escapes(s.drop_last());
        let out = strip_escapes(s);
        assert forall|x: char| out.contains(x) implies x != esc() && x != '\r' by {
            let k = choose|k: int| 0 <= k < out.len() && out[k] == x;
            if k < prev.len() {
                assert(prev[k] == x);
            }
        }
    }
}

/// Text with no escape character and no carriage return passes the filter unchanged.
pub proof fn lemma_strip_plain(t: Seq<char>)
    requires
        !t.contains(esc()),
        !t.contains('\r'),
    ensures
        strip_escapes(t) == t,
        !in_escape_after(t),
    decreases t.len(),
{
    if t.len() > 0 {
        let p = t.drop_last();
        assert(!p.contains(esc())) by {
            if p.contains(esc()) {
                let k = choose|k: int| 0 <= k < p.len() && p[k] == esc();
                assert(t[k] == esc());
            }
        }
        assert(!p.contains('\r')) by {
            if p.contains('\r') {
                let k = choose|k: int| 0 <= k < p.len() && p[k] == '\r';
                assert(t[k] == '\r');
            }
        }
        lemma_strip_plain(p);
        assert(t.last() == t[t.len() - 1]);
        assert(t.last() != esc() && t.last() != '\r');
        assert(p.push(t.last()) =~= t);
    }
}

/// Removing escape sequences twice removes no more than once.
pub proof fn lemma_strip_idempotent(s: Seq<char>)
    ensures
        strip_escapes(strip_escapes(s)) == strip_escapes(s),
{
    lemma_strip_clean(s);
    lemma_strip_plain(strip_escapes(s));
}

/// Adding a character to the last of `q` adds it at the end of their join.
proof fn lemma_join_extend_last(q: Seq<Seq<char>>, c: char)
    requires
        q.len() > 0,
    ensures
        join_lines(q.update(q.len() - 1, q.last().push(c))) == join_lines(q).push(c),
{
    let r = q.update(q.len() - 1, q.last().push(c));
    if q.len() == 1 {
        assert(r[0] == q[0].push(c));
    } else {
        assert(r.drop_last() =~= q.drop_last());
        assert(r.last() == q.last().push(c));
        assert(join_lines(r) =~= join_lines(q).push(c));
    }
}

/// Joining the lines of `s` with newlines gives back `s`.
pub proof fn lemma_split_join(s: Seq<char>)
    ensures
        join_lines(split_lines(s)) == s,
        split_lines(s).len() > 0,
    decreases s.len(),
{
    if s.len() == 0 {
        assert(join_lines(split_lines(s)) =~= s);
    } else {
        let p = split_lines(s.drop_last());
        lemma_split_join(s.drop_last());
        if s.last() == '\n' {
            let q = p.push(Seq::<char>::empty());
            assert(q.drop_last() =~= p);
            assert(join_lines(q) =~= s);
        } else {
            lemma_join_extend_last(p, s.last());
            assert(s.drop_last().push(s.last()) =~= s);
        }
    }
}

/// A character that `s` does not contain is in none of its lines.
pub proof fn lemma_split_avoids(s: Seq<char>, x: char)
    requires
        !s.contains(x),
    ensures
        forall|i: int| 0 <= i < split_lines(s).len() ==> !(#[trigger] split_lines(s)[i]).contains(x),
    decreases s.len(),
{
    if s.len() > 0 {
        let p = s.drop_last();
        assert(!p.contains(x)) by {
            if p.contains(x) {
                let k = choose|k: int| 0 <= k < p.len() && p[k] == x;
                assert(s[k] == x);
            }
        }
        lemma_split_avoids(p, x);
        lemma_split_join(p);
        let q = split_lines(p);
        assert(s.last() == s[s.len() - 1]);
        assert forall|i: int| 0 <= i < split_lines(s).len() implies !(#[trigger] split_lines(s)[i]).contains(x) by {
            if s.last() != '\n' && i == q.len() - 1 {
                let line = split_lines(s)[i];
                assert(line == q.last().push(s.last()));
                if line.contains(x) {
                    let k = choose|k: int| 0 <= k < line.len() && line[k] == x;
                    if k < q.last().len() {
                        assert(q[i][k] == x);
                    }
                }
            } else if i < q.len() {
                assert(split_lines(s)[i] == q[i]);
            } else {
                assert(split_lines(s)[i] =~= Seq::<char>::empty());
            }
        }
    }
}

/// The lines of text without escape characters and carriage returns come
/// through the filter unchanged.
pub proof fn lemma_clean_plain(t: Seq<char>)
    requires
        !t.contains(esc()),
        !t.contains('\r'),
    ensures
        clean_lines(t) == split_lines(t),
{
    lemma_split_avoids(t, esc());
    lemma_split_avoids(t, '\r');
    let s = split_lines(t);
    assert forall|i: int| 0 <= i < s.len() implies strip_escapes(s[i]) == s[i] by {
        lemma_strip_plain(s[i]);
    }
    assert(clean_lines(t) =~= s);
}

} // verus!


verus! {

/// ASCII bytes are valid UTF-8 and decode to the characters with the same codes.
pub proof fn lemma_ascii_utf8(bytes: Seq<u8>)
    requires
        all_ascii(bytes),
    ensures
        valid_utf8(bytes),
        decode_utf8(bytes) == ascii_chars(bytes),
    decreases bytes.len(),
{
    if bytes.len() > 0 {
        let b = bytes[0];
        assert(b < 128);
        assert(b & 0x7f == b) by (bit_vector)
            requires
                b < 128,
        ;
        let rest = bytes.subrange(1, bytes.len() as int);
        assert(all_ascii(rest)) by {
            assert forall|i: int| 0 <= i < rest.len() implies rest[i] < 128 by {
                assert(rest[i] == bytes[i + 1]);
            }
        }
        lemma_ascii_utf8(rest);
        assert(vstd::utf8::pop_first_scalar(bytes) == rest);
        assert(decode_utf8(bytes) =~= ascii_chars(bytes));
    }
}

} // verus!

verus! {

/// Whether `s` ends inside an escape sequence: its last line opened one that no
/// letter has closed yet.
pub open spec fn ends_in_escape(s: Seq<char>) -> bool {
    in_escape_after(split_lines(s).last())
}

/// Outside an escape sequence, the filter works on two texts one after the other
/// as on their concatenation.
pub proof fn lemma_strip_concat(x: Seq<char>, y: Seq<char>)
    requires
        !in_escape_after(x),
    ensures
        strip_escapes(x + y) == strip_escapes(x) + strip_escapes(y),
        in_escape_after(x + y) == in_escape_after(y),
    decreases y.len(),
{
    if y.len() == 0 {
        assert(x + y =~= x);
        assert(strip_escapes(x) + strip_escapes(y) =~= strip_escapes(x));
    } else {
        let y1 = y.drop_last();
        lemma_strip_concat(x, y1);
        assert((x + y).drop_last() =~= x + y1);
        assert((x + y).last() == y.last());
        assert(strip_escapes(x + y) =~= strip_escapes(x) + strip_escapes(y));
    }
}

/// The lines of `a + b`: those of `a`, with its last line continued by the first
/// of `b`, then the other lines of `b`.
pub proof fn lemma_split_concat(a: Seq<char>, b: Seq<char>)
    ensures
        split_lines(a + b) == merge_lines(split_lines(a), split_lines(b)),
    decreases b.len(),
{
    lemma_split_join(a);
    lemma_split_join(b);
    let sa = split_lines(a);
    if b.len() == 0 {
        assert(a + b =~= a);
        assert(split_lines(b) =~= seq![Seq::<char>::empty()]);
        assert(sa.last() + Seq::<char>::empty() =~= sa.last());
        assert(merge_lines(sa, split_lines(b)) =~= sa);
    } else {
        let b1 = b.drop_last();
        let c = b.last();
        lemma_split_concat(a, b1);
        lemma_split_join(b1);
        assert((a + b).drop_last() =~= a + b1);
        assert((a + b).last() == c);
        let y = split_lines(b1);
        let x = sa.drop_last();
        let m = merge_lines(sa, y);
        assert(m =~= x.push(sa.last() + y[0]) + y.drop_first());
        if c == '\n' {
            let y2 = y.push(Seq::<char>::empty());
            assert(y2[0] == y[0]);
            assert(y2.drop_first() =~= y.drop_first().push(Seq::<char>::empty()));
            assert(m.push(Seq::<char>::empty()) =~= merge_lines(sa, y2));
        } else {
            let y2 = y.update(y.len() - 1, y.last().push(c));
            let m2 = m.update(m.len() - 1, m.last().push(c));
            if y.len() == 1 {
                assert(y2[0] == y[0].push(c));
                assert(sa.last() + y[0].push(c) =~= (sa.last() + y[0]).push(c));
                assert(m2 =~= merge_lines(sa, y2));
            } else {
                assert(y2[0] == y[0]);
                assert(y2.drop_first() =~= y.drop_first().update(
                    y.len() - 2,
                    y.last().push(c),
                ));
                assert(m2 =~= merge_lines(sa, y2));
            }
        }
    }
}

/// Where `a` does not end inside an escape sequence, the cleaned lines of
/// `a + b` are those of `a` merged with those of `b`.
pub proof fn lemma_clean_concat(a: Seq<char>, b: Seq<char>)
    requires
        !ends_in_escape(a),
    ensures
        clean_lines(a + b) == merge_lines(clean_lines(a), clean_lines(b)),
        clean_lines(a).len() > 0,
        clean_lines(b).len() > 0,
{
    lemma_split_concat(a, b);
    lemma_split_join(a);
    lemma_split_join(b);
    let sa = split_lines(a);
    let sb = split_lines(b);
    lemma_strip_concat(sa.last(), sb[0]);
    let ca = clean_lines(a);
    let cb = clean_lines(b);
    assert(ca.last() == strip_escapes(sa.last()));
    assert(clean_lines(a + b) =~= merge_lines(ca, cb));
}

} // verus!

verus! {

/// Two pieces of valid UTF-8, one after the other, are valid UTF-8 and decode
/// to the characters of the first followed by those of the second.
pub proof fn lemma_decode_concat(a: Seq<u8>, b: Seq<u8>)
    requires
        valid_utf8(a),
        valid_utf8(b),
    ensures
        valid_utf8(a + b),
        decode_utf8(a + b) == decode_utf8(a) + decode_utf8(b),
    decreases a.len(),
{
    if a.len() == 0 {
        assert(a + b =~= b);
        assert(decode_utf8(a) =~= Seq::<char>::empty());
        assert(decode_utf8(a + b) =~= decode_utf8(a) + decode_utf8(b));
    } else {
        let ab = a + b;
        assert(valid_first_scalar(a));
        let n = length_of_first_scalar(a);
        assert(1 <= n <= a.len());
        assert(forall|k: int| 0 <= k < a.len() ==> ab[k] == a[k]);
        assert(ab[0] == a[0]);
        assert(n >= 2 ==> ab[1] == a[1]);
        assert(n >= 3 ==> ab[2] == a[2]);
        assert(n >= 4 ==> ab[3] == a[3]);
        assert(valid_first_scalar(ab));
        assert(length_of_first_scalar(ab) == n);
        assert(decode_first_scalar(ab) == decode_first_scalar(a));
        let rest = pop_first_scalar(a);
        assert(pop_first_scalar(ab) =~= rest + b);
        lemma_decode_concat(rest, b);
        assert(valid_utf8(ab));
        assert(decode_utf8(ab) =~= decode_utf8(a) + decode_utf8(b));
    }
}

} // verus!

verus! {

/// The number of newline characters in `s`.
pub open spec fn count_newlines(s: Seq<char>) -> nat
    decreases s.len(),
{
    if s.len() == 0 {
        0
    } else {
        count_newlines(s.drop_last()) + if s.last() == '\n' { 1nat } else { 0nat }
    }
}

/// The number of newline bytes (10) in `b`.
pub open spec fn count_newline_bytes(b: Seq<u8>) -> nat
    decreases b.len(),
{
    if b.len() == 0 {
        0
    } else {
        count_newline_bytes(b.drop_last()) + if b.last() == 10 { 1nat } else { 0nat }
    }
}

/// Text has one line more than it has newlines.
pub proof fn lemma_split_count(s: Seq<char>)
    ensures
        split_lines(s).len() == count_newlines(s) + 1,
        clean_lines(s).len() == count_newlines(s) + 1,
    decreases s.len(),
{
    if s.len() > 0 {
        lemma_split_count(s.drop_last());
    }
}

} // verus!

verus! {

/// Newlines of two texts add up.
pub proof fn lemma_count_newlines_concat(x: Seq<char>, y: Seq<char>)
    ensures
        count_newlines(x + y) == count_newlines(x) + count_newlines(y),
    decreases y.len(),
{
    if y.len() == 0 {
        assert(x + y =~= x);
    } else {
        lemma_count_newlines_concat(x, y.drop_last());
        assert((x + y).drop_last() =~= x + y.drop_last());
    }
}

/// Newline bytes of two byte sequences add up.
pub proof fn lemma_count_newline_bytes_concat(x: Seq<u8>, y: Seq<u8>)
    ensures
        count_newline_bytes(x + y) == count_newline_bytes(x) + count_newline_bytes(y),
    decreases y.len(),
{
    if y.len() == 0 {
        assert(x + y =~= x);
    } else {
        lemma_count_newline_bytes_concat(x, y.drop_last());
        assert((x + y).drop_last() =~= x + y.drop_last());
    }
}

/// Bytes of 128 and above hold no newline byte.
proof fn lemma_high_bytes_no_newline(b: Seq<u8>)
    requires
        forall|i: int| 0 <= i < b.len() ==> b[i] >= 128,
    ensures
        count_newline_bytes(b) == 0,
    decreases b.len(),
{
    if b.len() > 0 {
        lemma_high_bytes_no_newline(b.drop_last());
    }
}

/// Valid UTF-8 holds as many newline bytes as its decoding holds newlines.
pub proof fn lemma_utf8_newlines(a: Seq<u8>)
    requires
        valid_utf8(a),
    ensures
        count_newlines(decode_utf8(a)) == count_newline_bytes(a),
    decreases a.len(),
{
    if a.len() > 0 {
        let n = length_of_first_scalar(a);
        let head = a.subrange(0, n);
        let rest = pop_first_scalar(a);
        assert(a =~= head + rest);
        lemma_utf8_newlines(rest);
        lemma_count_newline_bytes_concat(head, rest);
        let c = decode_first_scalar(a) as char;
        assert(decode_utf8(a) == seq![c] + decode_utf8(rest));
        lemma_count_newlines_concat(seq![c], decode_utf8(rest));
        assert(seq![c].drop_last() =~= Seq::<char>::empty());
        assert(count_newlines(Seq::<char>::empty()) == 0);
        assert(seq![c].last() == c);
        assert(count_newlines(seq![c]) == if c == '\n' { 1nat } else { 0nat });
        let b0 = a[0];
        if n == 1 {
            assert(b0 <= 0x7f);
            assert(b0 & 0x7f == b0) by (bit_vector)
                requires
                    b0 <= 0x7f,
            ;
            assert(head =~= seq![b0]);
            assert(head.drop_last() =~= Seq::<u8>::empty());
            assert(count_newline_bytes(Seq::<u8>::empty()) == 0);
            assert(head.last() == b0);
            assert(count_newline_bytes(head) == if b0 == 10 { 1nat } else { 0nat });
            assert((b0 == 10) == (c == '\n'));
        } else {
            let v = decode_first_scalar(a);
            let b1 = a[1];
            if n == 2 {
                let v2 = v;
                assert(v2 == ((b0 & 0x1f) as u32) << 6u32 | ((b1 & 0x3f) as u32));
                assert((((b0 & 0x1f) as u32) << 6u32 | ((b1 & 0x3f) as u32)) <= 0x7ff) by (bit_vector);
            } else if n == 3 {
                let b2 = a[2];
                assert(v == ((b0 & 0x0f) as u32) << 12u32 | ((b1 & 0x3f) as u32) << 6u32 | ((b2 & 0x3f) as u32));
                assert((((b0 & 0x0f) as u32) << 12u32 | ((b1 & 0x3f) as u32) << 6u32 | ((b2 & 0x3f) as u32)) <= 0xffff) by (bit_vector);
            }
            assert(0x80 <= v <= 0x10ffff && !(0xD800 <= v <= 0xDFFF));
            assert((c as u32) == v);
            assert(c != '\n');
            assert forall|i: int| 0 <= i < head.len() implies head[i] >= 128 by {
                assert(head[i] == a[i]);
            }
            lemma_high_bytes_no_newline(head);
        }
    }
}

} // verus!

verus! {

/// Inside an escape sequence, characters that are not ASCII letters and not the
/// escape character are all dropped and keep the sequence open.
proof fn lemma_escape_body(p: Seq<char>)
    requires
        forall|i: int|
            0 <= i < p.len() ==> p[i] != '\x1b' && !(('a' <= p[i] && p[i] <= 'z') || ('A' <= p[i]
                && p[i] <= 'Z')),
    ensures
        strip_escapes(seq!['\x1b'] + p) == Seq::<char>::empty(),
        in_escape_after(seq!['\x1b'] + p),
    decreases p.len(),
{
    let s = seq!['\x1b'] + p;
    assert(strip_escapes(Seq::<char>::empty()) == Seq::<char>::empty());
    if p.len() == 0 {
        assert(s =~= seq!['\x1b']);
        assert(s.drop_last() =~= Seq::<char>::empty());
        assert(s.last() == esc());
    } else {
        let q = p.drop_last();
        assert forall|i: int| 0 <= i < q.len() implies q[i] != '\x1b' && !(('a' <= q[i] && q[i] <= 'z')
            || ('A' <= q[i] && q[i] <= 'Z')) by {
            assert(q[i] == p[i]);
        }
        lemma_escape_body(q);
        assert(s.drop_last() =~= seq!['\x1b'] + q);
        assert(s.last() == p[p.len() - 1]);
        assert(s.last() != esc());
        assert(strip_escapes(s) == strip_escapes(s.drop_last()));
    }
}

/// An escape sequence runs from the escape character through the next ASCII
/// letter, whatever lies between (other than another escape character): all of
/// it is removed and what follows is filtered as if it stood alone.
pub proof fn lemma_escape_sequence_removed(p: Seq<char>, l: char, t: Seq<char>)
    requires
        forall|i: int|
            0 <= i < p.len() ==> p[i] != '\x1b' && !(('a' <= p[i] && p[i] <= 'z') || ('A' <= p[i]
                && p[i] <= 'Z')),
        ('a' <= l && l <= 'z') || ('A' <= l && l <= 'Z'),
    ensures
        strip_escapes(seq!['\x1b'] + p + seq![l] + t) == strip_escapes(t),
{
    lemma_escape_body(p);
    let x = seq!['\x1b'] + p + seq![l];
    assert(x.drop_last() =~= seq!['\x1b'] + p);
    assert(x.last() == l);
    assert(strip_escapes(x) == Seq::<char>::empty());
    assert(!in_escape_after(x));
    lemma_strip_concat(x, t);
    assert(strip_escapes(x) + strip_escapes(t) =~= strip_escapes(t));
}

/// Text without escape characters loses exactly its carriage returns: every
/// other character is kept, in order.
pub proof fn lemma_strip_plain_text(t: Seq<char>)
    requires
        forall|i: int| 0 <= i < t.len() ==> t[i] != '\x1b',
    ensures
        strip_escapes(t) == t.filter(|c: char| c != '\r'),
        !in_escape_after(t),
    decreases t.len(),
{
    reveal_with_fuel(Seq::<_>::filter, 1);
    if t.len() > 0 {
        let q = t.drop_last();
        assert forall|i: int| 0 <= i < q.len() implies q[i] != '\x1b' by {
            assert(q[i] == t[i]);
        }
        lemma_strip_plain_text(q);
        assert(t.last() == t[t.len() - 1]);
    }
}

/// The number that the decimal digits `s` stand for.
pub open spec fn digits_value(s: Seq<char>) -> int
    decreases s.len(),
{
    if s.len() == 0 {
        0
    } else {
        digits_value(s.drop_last()) * 10 + (s.last() as int - '0' as int)
    }
}

/// `decimal(n)` is the base-10 numeral of `n`: decimal digits only, reading back
/// as `n`, without a leading zero (one digit exactly below 10).
pub proof fn lemma_decimal_numeral(n: nat)
    ensures
        forall|i: int| 0 <= i < decimal(n).len() ==> '0' <= #[trigger] decimal(n)[i] && decimal(n)[i] <= '9',
        digits_value(decimal(n)) == n,
        n > 0 ==> decimal(n)[0] != '0',
        (decimal(n).len() == 1) == (n < 10),
        decimal(n).len() >= 1,
    decreases n,
{
    if n < 10 {
        assert(digit_char(n) as int == 48 + n);
        assert(decimal(n) =~= seq![digit_char(n)]);
        assert(decimal(n).drop_last() =~= Seq::<char>::empty());
        assert(digits_value(Seq::<char>::empty()) == 0);
        assert(decimal(n).last() == digit_char(n));
    } else {
        let q = n / 10;
        let r = n % 10;
        lemma_decimal_numeral(q);
        assert(digit_char(r) as int == 48 + r);
        let d = decimal(n);
        assert(d.drop_last() =~= decimal(q));
        assert(d[0] == decimal(q)[0]);
        assert forall|i: int| 0 <= i < d.len() implies '0' <= #[trigger] d[i] && d[i] <= '9' by {
            if i < decimal(q).len() {
                assert(d[i] == decimal(q)[i]);
            }
        }
        assert(n == q * 10 + r) by (nonlinear_arith)
            requires
                q == n / 10,
                r == n % 10,
        ;
        assert(q > 0);
        assert(d.last() == digit_char(r));
        assert(digits_value(d) == digits_value(decimal(q)) * 10 + r);
    }
}

} // verus!
