//! Character sequences as the box drawing sees them: UTF-8 byte lengths,
//! lines, whitespace-separated words and greedy line wrapping.
use vstd::prelude::*;
use vstd::utf8::{char_is_scalar, encode_scalar, encode_utf8};

verus! {

/// The number of bytes of the UTF-8 encoding of `s`, which is what `str::len` reports.
pub open spec fn byte_len(s: Seq<char>) -> nat {
    encode_utf8(s).len()
}

/// The number of bytes of the UTF-8 encoding of one character.
pub open spec fn char_width(c: char) -> nat {
    encode_scalar(c as u32).len()
}

pub proof fn lemma_encode_concat(a: Seq<char>, b: Seq<char>)
    ensures
        encode_utf8(a + b) == encode_utf8(a) + encode_utf8(b),
    decreases a.len(),
{
    if a.len() == 0 {
        assert(a + b =~= b);
        assert(encode_utf8(a) =~= Seq::<u8>::empty());
        assert(encode_utf8(a) + encode_utf8(b) =~= encode_utf8(b));
    } else {
        assert((a + b).drop_first() =~= a.drop_first() + b);
        assert((a + b)[0] == a[0]);
        lemma_encode_concat(a.drop_first(), b);
        assert(encode_utf8(a + b) =~= encode_scalar(a[0] as u32) + encode_utf8(a.drop_first() + b));
        assert(encode_utf8(a + b) =~= encode_utf8(a) + encode_utf8(b));
    }
}

/// The byte length of a concatenation is the sum of the byte lengths.
pub proof fn lemma_byte_len_concat(a: Seq<char>, b: Seq<char>)
    ensures
        byte_len(a + b) == byte_len(a) + byte_len(b),
{
    lemma_encode_concat(a, b);
}

pub proof fn lemma_byte_len_single(c: char)
    ensures
        byte_len(seq![c]) == char_width(c),
        1 <= char_width(c) <= 4,
        (c as u32) < 0x80 ==> char_width(c) == 1,
{
    broadcast use char_is_scalar;

    assert(seq![c].drop_first() =~= Seq::<char>::empty());
    assert(encode_utf8(seq![c]) =~= encode_scalar(c as u32) + encode_utf8(Seq::<char>::empty()));
    assert(encode_utf8(Seq::<char>::empty()) =~= Seq::<u8>::empty());
}

pub proof fn lemma_byte_len_push(s: Seq<char>, c: char)
    ensures
        byte_len(s.push(c)) == byte_len(s) + char_width(c),
        1 <= char_width(c) <= 4,
{
    assert(s.push(c) =~= s + seq![c]);
    lemma_byte_len_concat(s, seq![c]);
    lemma_byte_len_single(c);
}

pub proof fn lemma_byte_len_empty()
    ensures
        byte_len(Seq::<char>::empty()) == 0,
{
    assert(encode_utf8(Seq::<char>::empty()) =~= Seq::<u8>::empty());
}

/// A prefix is never longer in bytes than the whole.
pub proof fn lemma_byte_len_take(s: Seq<char>, n: int)
    requires
        0 <= n <= s.len(),
    ensures
        byte_len(s.take(n)) <= byte_len(s),
{
    assert(s =~= s.take(n) + s.skip(n));
    lemma_byte_len_concat(s.take(n), s.skip(n));
}

/// The UTF-8 width of a character.
pub fn char_width_exec(c: char) -> (w: usize)
    ensures
        w == char_width(c),
        1 <= w <= 4,
{
    proof {
        broadcast use char_is_scalar;
    }
    let u = c as u32;
    if u < 0x80 {
        1
    } else if u < 0x800 {
        2
    } else if u < 0x10000 {
        3
    } else {
        4
    }
}

/// The UTF-8 byte length of a character sequence.
pub fn byte_len_exec(v: &Vec<char>) -> (n: usize)
    requires
        byte_len(v@) <= usize::MAX,
    ensures
        n == byte_len(v@),
{
    let mut n: usize = 0;
    let mut i: usize = 0;
    proof {
        lemma_byte_len_empty();
        assert(v@.take(0) =~= Seq::<char>::empty());
    }
    while i < v.len()
        invariant
            i <= v.len(),
            n == byte_len(v@.take(i as int)),
            byte_len(v@) <= usize::MAX,
        decreases v.len() - i,
    {
        let w = char_width_exec(v[i]);
        proof {
            assert(v@.take(i + 1) =~= v@.take(i as int).push(v[i as int]));
            lemma_byte_len_push(v@.take(i as int), v[i as int]);
            lemma_byte_len_take(v@, i + 1);
        }
        n = n + w;
        i += 1;
    }
    assert(v@.take(v.len() as int) =~= v@);
    n
}

/// The characters of a string slice.
pub fn chars_of(s: &str) -> (v: Vec<char>)
    ensures
        v@ == s@,
{
    let mut v: Vec<char> = Vec::new();
    for c in it: s.chars()
        invariant
            v@ == it.seq().take(it.index() as int),
    {
        v.push(c);
    }
    v
}

/// Appends one character to a `String`.
///
/// Trusted: `String::push` appends the character, as its documentation states.
#[verifier::external_body]
pub fn string_push(s: &mut String, c: char)
    ensures
        final(s)@ == old(s)@.push(c),
{
    s.push(c);
}

/// A `String` holding exactly the given characters.
pub fn string_from_chars(v: &Vec<char>) -> (s: String)
    ensures
        s@ == v@,
{
    let mut s = String::new();
    let mut i: usize = 0;
    while i < v.len()
        invariant
            i <= v.len(),
            s@ == v@.take(i as int),
        decreases v.len() - i,
    {
        string_push(&mut s, v[i]);
        assert(v@.take(i + 1) =~= v@.take(i as int).push(v@[i as int]));
        i += 1;
    }
    assert(v@.take(v.len() as int) =~= v@);
    s
}


/// The views of a vector of character vectors.
pub open spec fn views(v: Seq<Vec<char>>) -> Seq<Seq<char>> {
    v.map_values(|x: Vec<char>| x@)
}

/// The pieces of `s` between occurrences of `sep`, as `str::split` yields
/// them: one more piece than there are separators.
pub open spec fn split_on(s: Seq<char>, sep: char) -> Seq<Seq<char>>
    decreases s.len(),
{
    if s.len() == 0 {
        seq![Seq::empty()]
    } else {
        let p = split_on(s.drop_last(), sep);
        if s.last() == sep {
            p.push(Seq::empty())
        } else {
            p.update(p.len() - 1, p.last().push(s.last()))
        }
    }
}

/// A line without the carriage return that ends it, if any.
pub open spec fn strip_cr(l: Seq<char>) -> Seq<char> {
    if l.len() > 0 && l.last() == '\r' {
        l.drop_last()
    } else {
        l
    }
}

/// The lines of `s` as `str::lines` yields them: split at `\n`, each line
/// ended by `\n` also loses a `\r` before it, and an empty piece after the
/// final `\n` is no line.
pub open spec fn text_lines(s: Seq<char>) -> Seq<Seq<char>> {
    let p = split_on(s, '\n');
    let body = p.drop_last().map_values(|l: Seq<char>| strip_cr(l));
    if p.last().len() == 0 {
        body
    } else {
        body.push(p.last())
    }
}

pub proof fn lemma_split_on(s: Seq<char>, sep: char)
    ensures
        split_on(s, sep).len() >= 1,
        forall|i: int|
            0 <= i < split_on(s, sep).len() ==> byte_len(#[trigger] split_on(s, sep)[i]) <= byte_len(s),
    decreases s.len(),
{
    if s.len() == 0 {
        lemma_byte_len_empty();
    } else {
        let p = split_on(s.drop_last(), sep);
        lemma_split_on(s.drop_last(), sep);
        assert(s =~= s.drop_last().push(s.last()));
        lemma_byte_len_push(s.drop_last(), s.last());
        lemma_byte_len_push(p.last(), s.last());
        lemma_byte_len_empty();
    }
}

pub proof fn lemma_text_lines_bounded(s: Seq<char>)
    ensures
        forall|i: int|
            0 <= i < text_lines(s).len() ==> byte_len(#[trigger] text_lines(s)[i]) <= byte_len(s),
{
    let p = split_on(s, '\n');
    lemma_split_on(s, '\n');
    assert forall|i: int| 0 <= i < text_lines(s).len() implies byte_len(
        #[trigger] text_lines(s)[i],
    ) <= byte_len(s) by {
        if i < p.len() - 1 {
            let l = p[i];
            if l.len() > 0 && l.last() == '\r' {
                assert(l =~= l.drop_last().push(l.last()));
                lemma_byte_len_push(l.drop_last(), l.last());
            }
        }
    }
}

/// Splits a character sequence at every `sep`.
pub fn split_on_exec(v: &Vec<char>, sep: char) -> (pieces: Vec<Vec<char>>)
    ensures
        views(pieces@) == split_on(v@, sep),
{
    let mut done: Vec<Vec<char>> = Vec::new();
    let mut cur: Vec<char> = Vec::new();
    let mut i: usize = 0;
    assert(v@.take(0) =~= Seq::<char>::empty());
    assert(views(done@).push(cur@) =~= seq![Seq::<char>::empty()]);
    while i < v.len()
        invariant
            i <= v.len(),
            views(done@).push(cur@) == split_on(v@.take(i as int), sep),
        decreases v.len() - i,
    {
        let c = v[i];
        let ghost pre = v@.take(i as int);
        assert(v@.take(i + 1).drop_last() =~= pre);
        assert(v@.take(i + 1).last() == c);
        if c == sep {
            done.push(cur);
            cur = Vec::new();
            assert(views(done@).push(cur@) =~= split_on(pre, sep).push(Seq::empty()));
        } else {
            let ghost d = views(done@);
            cur.push(c);
            assert(views(done@).push(cur@) =~= split_on(pre, sep).update(
                split_on(pre, sep).len() - 1,
                split_on(pre, sep).last().push(c),
            ));
        }
        i += 1;
    }
    assert(v@.take(v.len() as int) =~= v@);
    done.push(cur);
    done
}

/// The lines of a character sequence, with `str::lines` semantics.
pub fn text_lines_exec(v: &Vec<char>) -> (lines: Vec<Vec<char>>)
    ensures
        views(lines@) == text_lines(v@),
{
    let mut pieces = split_on_exec(v, '\n');
    proof {
        lemma_split_on(v@, '\n');
    }
    let ghost p = split_on(v@, '\n');
    let last = pieces.pop().unwrap();
    let mut lines: Vec<Vec<char>> = Vec::new();
    let mut i: usize = 0;
    while i < pieces.len()
        invariant
            i <= pieces.len(),
            pieces.len() == p.len() - 1,
            forall|j: int| 0 <= j < pieces.len() ==> #[trigger] pieces@[j]@ == p[j],
            views(lines@) == p.drop_last().take(i as int).map_values(|l: Seq<char>| strip_cr(l)),
        decreases pieces.len() - i,
    {
        let mut l = pieces[i].clone();
        assert(l@ == p[i as int]);
        let n = l.len();
        if n > 0 && l[n - 1] == '\r' {
            l.pop();
        }
        assert(l@ == strip_cr(p[i as int]));
        let ghost old_lines = views(lines@);
        let ghost l_view = l@;
        lines.push(l);
        assert(views(lines@) =~= old_lines.push(l_view));
        assert(p.drop_last().take(i + 1) =~= p.drop_last().take(i as int).push(p[i as int]));
        assert(p.drop_last().take(i + 1).map_values(|l: Seq<char>| strip_cr(l)) =~= p.drop_last().take(
            i as int,
        ).map_values(|l: Seq<char>| strip_cr(l)).push(strip_cr(p[i as int])));
        assert(views(lines@) =~= p.drop_last().take(i + 1).map_values(
            |l: Seq<char>| strip_cr(l),
        ));
        i += 1;
    }
    assert(p.drop_last().take(pieces.len() as int) =~= p.drop_last());
    assert(last@ == p.last());
    if last.len() > 0 {
        lines.push(last);
        assert(views(lines@) =~= text_lines(v@));
    }
    lines
}


/// Unicode `White_Space`, which `char::is_whitespace` and `str::split_whitespace` use.
pub open spec fn is_ws(c: char) -> bool {
    let u = c as u32;
    ||| 0x09 <= u <= 0x0D
    ||| u == 0x20
    ||| u == 0x85
    ||| u == 0xA0
    ||| u == 0x1680
    ||| 0x2000 <= u <= 0x200A
    ||| u == 0x2028
    ||| u == 0x2029
    ||| u == 0x202F
    ||| u == 0x205F
    ||| u == 0x3000
}

/// Whether a character is Unicode white space.
pub fn is_ws_exec(c: char) -> (b: bool)
    ensures
        b == is_ws(c),
{
    let u = c as u32;
    (0x09 <= u && u <= 0x0D) || u == 0x20 || u == 0x85 || u == 0xA0 || u == 0x1680 || (0x2000
        <= u && u <= 0x200A) || u == 0x2028 || u == 0x2029 || u == 0x202F || u == 0x205F || u
        == 0x3000
}

/// The words of `s` as `str::split_whitespace` yields them: the maximal runs
/// of characters that are not white space, in order.
pub open spec fn words(s: Seq<char>) -> Seq<Seq<char>>
    decreases s.len(),
{
    if s.len() == 0 {
        Seq::empty()
    } else {
        let w = words(s.drop_last());
        let c = s.last();
        if is_ws(c) {
            w
        } else if s.len() >= 2 && !is_ws(s[s.len() - 2]) {
            w.update(w.len() - 1, w.last().push(c))
        } else {
            w.push(seq![c])
        }
    }
}

/// Every word is non-empty, free of white space, and no longer in bytes than its text.
pub proof fn lemma_words(s: Seq<char>)
    ensures
        s.len() > 0 && !is_ws(s.last()) ==> words(s).len() > 0,
        forall|i: int|
            #![trigger words(s)[i]]
            0 <= i < words(s).len() ==> words(s)[i].len() > 0 && byte_len(words(s)[i])
                <= byte_len(s) && forall|j: int|
                0 <= j < words(s)[i].len() ==> !is_ws(#[trigger] words(s)[i][j]),
    decreases s.len(),
{
    if s.len() > 0 {
        let t = s.drop_last();
        let c = s.last();
        lemma_words(t);
        assert(s =~= t.push(c));
        lemma_byte_len_push(t, c);
        if !is_ws(c) {
            if s.len() >= 2 && !is_ws(s[s.len() - 2]) {
                assert(t.last() == s[s.len() - 2]);
                let w = words(t);
                lemma_byte_len_push(w.last(), c);
            } else {
                lemma_byte_len_single(c);
                lemma_byte_len_empty();
                assert(seq![c] =~= Seq::<char>::empty().push(c));
                lemma_byte_len_push(Seq::<char>::empty(), c);
                if t.len() > 0 {
                    lemma_byte_len_take(s, 0);
                }
            }
        }
    }
}

/// The words of a character sequence, with `str::split_whitespace` semantics.
pub fn words_exec(v: &Vec<char>) -> (ws: Vec<Vec<char>>)
    ensures
        views(ws@) == words(v@),
{
    let mut done: Vec<Vec<char>> = Vec::new();
    let mut cur: Vec<char> = Vec::new();
    let mut i: usize = 0;
    assert(v@.take(0) =~= Seq::<char>::empty());
    assert(views(done@) =~= Seq::<Seq<char>>::empty());
    while i < v.len()
        invariant
            i <= v.len(),
            words(v@.take(i as int)) == (if cur@.len() > 0 {
                views(done@).push(cur@)
            } else {
                views(done@)
            }),
            cur@.len() > 0 <==> (i > 0 && !is_ws(v@[i - 1])),
        decreases v.len() - i,
    {
        let c = v[i];
        let ghost pre = v@.take(i as int);
        let ghost s1 = v@.take(i + 1);
        assert(s1.drop_last() =~= pre);
        assert(s1.last() == c);
        if is_ws_exec(c) {
            if cur.len() > 0 {
                done.push(cur);
                cur = Vec::new();
            }
        } else {
            if cur.len() > 0 {
                assert(s1[s1.len() - 2] == v@[i - 1]);
                cur.push(c);
                assert(views(done@).push(cur@) =~= words(pre).update(
                    words(pre).len() - 1,
                    words(pre).last().push(c),
                ));
            } else {
                cur.push(c);
                assert(cur@ =~= seq![c]);
                if i > 0 {
                    assert(s1[s1.len() - 2] == v@[i - 1]);
                }
            }
        }
        i += 1;
    }
    assert(v@.take(v.len() as int) =~= v@);
    if cur.len() > 0 {
        done.push(cur);
    }
    done
}


/// Greedy wrapping of `ws` into lines of at most `w` bytes: the lines already
/// finished, and the line being filled.  A word joins the current line, after
/// one space, when the result stays within `w` bytes; otherwise it starts a
/// new line.  A word longer than `w` stands alone on its line.
pub open spec fn wrap_state(ws: Seq<Seq<char>>, w: nat) -> (Seq<Seq<char>>, Seq<char>)
    decreases ws.len(),
{
    if ws.len() == 0 {
        (Seq::empty(), Seq::empty())
    } else {
        let (done, cur) = wrap_state(ws.drop_last(), w);
        let word = ws.last();
        if cur.len() == 0 {
            (done, word)
        } else if byte_len(cur) + 1 + byte_len(word) <= w {
            (done, cur + seq![' '] + word)
        } else {
            (done.push(cur), word)
        }
    }
}

/// The lines that greedy wrapping makes of the words `ws`.
pub open spec fn wrap_words(ws: Seq<Seq<char>>, w: nat) -> Seq<Seq<char>> {
    let (done, cur) = wrap_state(ws, w);
    if cur.len() == 0 {
        done
    } else {
        done.push(cur)
    }
}

/// The wrapped lines of a text: each of its lines is wrapped on its own.
pub open spec fn wrap_lines(ls: Seq<Seq<char>>, w: nat) -> Seq<Seq<char>>
    decreases ls.len(),
{
    if ls.len() == 0 {
        Seq::empty()
    } else {
        wrap_lines(ls.drop_last(), w) + wrap_words(words(ls.last()), w)
    }
}

/// Whether every sequence in `ws` has at most `w` bytes.
pub open spec fn all_fit(ws: Seq<Seq<char>>, w: nat) -> bool {
    forall|i: int| 0 <= i < ws.len() ==> byte_len(#[trigger] ws[i]) <= w
}

/// Whether every word of every line fits in `w` bytes.
pub open spec fn words_fit(ls: Seq<Seq<char>>, w: nat) -> bool {
    forall|i: int| 0 <= i < ls.len() ==> all_fit(words(#[trigger] ls[i]), w)
}

pub proof fn lemma_wrap_state_within(ws: Seq<Seq<char>>, w: nat, b: nat)
    requires
        all_fit(ws, b),
        w <= b,
    ensures
        all_fit(wrap_state(ws, w).0, b),
        byte_len(wrap_state(ws, w).1) <= b,
    decreases ws.len(),
{
    if ws.len() == 0 {
        lemma_byte_len_empty();
    } else {
        let (done, cur) = wrap_state(ws.drop_last(), w);
        assert(all_fit(ws.drop_last(), b)) by {
            assert forall|i: int| 0 <= i < ws.drop_last().len() implies byte_len(
                #[trigger] ws.drop_last()[i],
            ) <= b by {
                assert(ws.drop_last()[i] == ws[i]);
            }
        }
        lemma_wrap_state_within(ws.drop_last(), w, b);
        let word = ws.last();
        assert(byte_len(word) <= b);
        if cur.len() != 0 && byte_len(cur) + 1 + byte_len(word) <= w {
            lemma_byte_len_concat(cur + seq![' '], word);
            lemma_byte_len_concat(cur, seq![' ']);
            lemma_byte_len_single(' ');
        }
    }
}

/// Greedy wrapping makes no line longer than `b` bytes when no word is and
/// the wrapping width is at most `b`.
pub proof fn lemma_wrap_words_within(ws: Seq<Seq<char>>, w: nat, b: nat)
    requires
        all_fit(ws, b),
        w <= b,
    ensures
        all_fit(wrap_words(ws, w), b),
{
    lemma_wrap_state_within(ws, w, b);
}

/// Wrapping a text makes no line longer than `b` bytes when no word is and
/// the wrapping width is at most `b`.
pub proof fn lemma_wrap_lines_within(ls: Seq<Seq<char>>, w: nat, b: nat)
    requires
        words_fit(ls, b),
        w <= b,
    ensures
        all_fit(wrap_lines(ls, w), b),
    decreases ls.len(),
{
    if ls.len() > 0 {
        assert(words_fit(ls.drop_last(), b)) by {
            assert forall|i: int| 0 <= i < ls.drop_last().len() implies all_fit(
                words(#[trigger] ls.drop_last()[i]),
                b,
            ) by {
                assert(ls.drop_last()[i] == ls[i]);
            }
        }
        lemma_wrap_lines_within(ls.drop_last(), w, b);
        assert(all_fit(words(ls[ls.len() - 1]), b));
        lemma_wrap_words_within(words(ls.last()), w, b);
        let a = wrap_lines(ls.drop_last(), w);
        let c = wrap_words(words(ls.last()), w);
        assert forall|i: int| 0 <= i < (a + c).len() implies byte_len(#[trigger] (a + c)[i])
            <= b by {
            if i < a.len() {
                assert((a + c)[i] == a[i]);
            } else {
                assert((a + c)[i] == c[i - a.len()]);
            }
        }
    }
}

/// No word of a text is longer in bytes than the text.
pub proof fn lemma_words_of_lines_bounded(ls: Seq<Seq<char>>, b: nat)
    requires
        all_fit(ls, b),
    ensures
        words_fit(ls, b),
{
    assert forall|i: int| 0 <= i < ls.len() implies all_fit(words(#[trigger] ls[i]), b) by {
        lemma_words(ls[i]);
        assert(byte_len(ls[i]) <= b);
        assert forall|j: int| 0 <= j < words(ls[i]).len() implies byte_len(
            #[trigger] words(ls[i])[j],
        ) <= b by {}
    }
}

/// Appends the characters of `src` to `dst`.
pub fn push_all(dst: &mut Vec<char>, src: &Vec<char>)
    ensures
        final(dst)@ == old(dst)@ + src@,
{
    let mut i: usize = 0;
    while i < src.len()
        invariant
            i <= src.len(),
            dst@ == old(dst)@ + src@.take(i as int),
        decreases src.len() - i,
    {
        dst.push(src[i]);
        assert(src@.take(i + 1) =~= src@.take(i as int).push(src@[i as int]));
        i += 1;
    }
    assert(src@.take(src.len() as int) =~= src@);
}

/// Wraps the words of one line and appends the resulting lines to `out`.
pub fn wrap_words_into(out: &mut Vec<Vec<char>>, ws: &Vec<Vec<char>>, w: usize)
    requires
        forall|i: int| 0 <= i < ws.len() ==> byte_len(#[trigger] ws@[i]@) <= usize::MAX,
    ensures
        views(final(out)@) == views(old(out)@) + wrap_words(views(ws@), w as nat),
{
    let ghost vs = views(ws@);
    let ghost base = views(out@);
    let mut cur: Vec<char> = Vec::new();
    let mut cur_len: usize = 0;
    let mut k: usize = 0;
    proof {
        lemma_byte_len_empty();
        assert(vs.take(0) =~= Seq::<Seq<char>>::empty());
        assert(base + wrap_state(vs.take(0), w as nat).0 =~= base);
    }
    while k < ws.len()
        invariant
            k <= ws.len(),
            vs == views(ws@),
            forall|i: int| 0 <= i < ws.len() ==> byte_len(#[trigger] ws@[i]@) <= usize::MAX,
            views(out@) == base + wrap_state(vs.take(k as int), w as nat).0,
            cur@ == wrap_state(vs.take(k as int), w as nat).1,
            cur_len == byte_len(cur@),
        decreases ws.len() - k,
    {
        let word = &ws[k];
        assert(byte_len(word@) <= usize::MAX);
        let wlen = byte_len_exec(word);
        assert(vs.take(k + 1).drop_last() =~= vs.take(k as int));
        assert(vs.take(k + 1).last() == word@);
        if cur.len() == 0 {
            cur = word.clone();
            cur_len = wlen;
        } else if cur_len < w && wlen <= w - cur_len - 1 {
            proof {
                lemma_byte_len_concat(cur@ + seq![' '], word@);
                lemma_byte_len_concat(cur@, seq![' ']);
                lemma_byte_len_single(' ');
            }
            cur.push(' ');
            assert(cur@ =~= wrap_state(vs.take(k as int), w as nat).1 + seq![' ']);
            push_all(&mut cur, word);
            cur_len = cur_len + 1 + wlen;
        } else {
            let ghost before = views(out@);
            let ghost cv = cur@;
            out.push(cur);
            assert(views(out@) =~= before.push(cv));
            cur = word.clone();
            cur_len = wlen;
        }
        k += 1;
    }
    assert(vs.take(ws.len() as int) =~= vs);
    if cur.len() > 0 {
        let ghost before = views(out@);
        let ghost cv = cur@;
        out.push(cur);
        assert(views(out@) =~= before.push(cv));
    }
}


/// Wraps every line of a text to `w` bytes.
pub fn wrap_lines_exec(lines: &Vec<Vec<char>>, w: usize) -> (out: Vec<Vec<char>>)
    requires
        forall|i: int| 0 <= i < lines.len() ==> byte_len(#[trigger] lines@[i]@) <= usize::MAX,
    ensures
        views(out@) == wrap_lines(views(lines@), w as nat),
{
    let ghost ls = views(lines@);
    let mut out: Vec<Vec<char>> = Vec::new();
    let mut j: usize = 0;
    assert(ls.take(0) =~= Seq::<Seq<char>>::empty());
    assert(views(out@) =~= Seq::<Seq<char>>::empty());
    while j < lines.len()
        invariant
            j <= lines.len(),
            ls == views(lines@),
            forall|i: int| 0 <= i < lines.len() ==> byte_len(#[trigger] lines@[i]@) <= usize::MAX,
            views(out@) == wrap_lines(ls.take(j as int), w as nat),
        decreases lines.len() - j,
    {
        let ws = words_exec(&lines[j]);
        proof {
            lemma_words(lines@[j as int]@);
            assert forall|i: int| 0 <= i < ws.len() implies byte_len(#[trigger] ws@[i]@)
                <= usize::MAX by {
                assert(ws@[i]@ == words(lines@[j as int]@)[i]);
            }
        }
        wrap_words_into(&mut out, &ws, w);
        assert(ls.take(j + 1).drop_last() =~= ls.take(j as int));
        assert(ls.take(j + 1).last() == lines@[j as int]@);
        j += 1;
    }
    assert(ls.take(lines.len() as int) =~= ls);
    out
}


/// Whether `v` is a word: non-empty, without white space.
pub open spec fn is_word(v: Seq<char>) -> bool {
    v.len() > 0 && forall|j: int| 0 <= j < v.len() ==> !is_ws(#[trigger] v[j])
}

/// The words of every line, in order.
pub open spec fn words_of_all(ls: Seq<Seq<char>>) -> Seq<Seq<char>>
    decreases ls.len(),
{
    if ls.len() == 0 {
        Seq::empty()
    } else {
        words_of_all(ls.drop_last()) + words(ls.last())
    }
}

proof fn lemma_words_of_word(v: Seq<char>)
    requires
        is_word(v),
    ensures
        words(v) == seq![v],
    decreases v.len(),
{
    let t = v.drop_last();
    let c = v.last();
    if t.len() == 0 {
        assert(words(t) =~= Seq::<Seq<char>>::empty());
        assert(seq![c] =~= v);
        assert(words(v) =~= seq![v]);
    } else {
        assert(is_word(t)) by {
            assert forall|j: int| 0 <= j < t.len() implies !is_ws(#[trigger] t[j]) by {
                assert(t[j] == v[j]);
            }
        }
        lemma_words_of_word(t);
        assert(v[v.len() - 2] == t[t.len() - 1]);
        assert(t.push(c) =~= v);
        assert(words(v) =~= seq![v]);
    }
}

proof fn lemma_words_after_space(s: Seq<char>)
    ensures
        words(s + seq![' ']) == words(s),
{
    let t = s + seq![' '];
    assert(t.drop_last() =~= s);
    assert(is_ws(t.last()));
}

proof fn lemma_words_join(s: Seq<char>, v: Seq<char>)
    requires
        is_word(v),
    ensures
        words(s + seq![' '] + v) == words(s).push(v),
    decreases v.len(),
{
    let t = s + seq![' '] + v;
    let c = v.last();
    let v0 = v.drop_last();
    lemma_words_after_space(s);
    if v0.len() == 0 {
        assert(t.drop_last() =~= s + seq![' ']);
        assert(t[t.len() - 2] == ' ');
        assert(seq![c] =~= v);
    } else {
        assert(is_word(v0)) by {
            assert forall|j: int| 0 <= j < v0.len() implies !is_ws(#[trigger] v0[j]) by {
                assert(v0[j] == v[j]);
            }
        }
        lemma_words_join(s, v0);
        assert(t.drop_last() =~= s + seq![' '] + v0);
        assert(t[t.len() - 2] == v0.last());
        assert(v0.push(c) =~= v);
        assert(words(t) =~= words(s).push(v));
    }
}

proof fn lemma_words_of_all_push(ls: Seq<Seq<char>>, l: Seq<char>)
    ensures
        words_of_all(ls.push(l)) == words_of_all(ls) + words(l),
{
    assert(ls.push(l).drop_last() =~= ls);
}

proof fn lemma_words_of_all_concat(a: Seq<Seq<char>>, b: Seq<Seq<char>>)
    ensures
        words_of_all(a + b) == words_of_all(a) + words_of_all(b),
    decreases b.len(),
{
    if b.len() == 0 {
        assert(a + b =~= a);
        assert(words_of_all(a) + words_of_all(b) =~= words_of_all(a));
    } else {
        lemma_words_of_all_concat(a, b.drop_last());
        assert((a + b).drop_last() =~= a + b.drop_last());
        assert((a + b).last() == b.last());
        assert(words_of_all(a + b) =~= words_of_all(a) + words_of_all(b));
    }
}

proof fn lemma_wrap_state_keeps_words(ws: Seq<Seq<char>>, w: nat)
    requires
        forall|i: int| 0 <= i < ws.len() ==> is_word(#[trigger] ws[i]),
    ensures
        words_of_all(wrap_state(ws, w).0) + words(wrap_state(ws, w).1) == ws,
    decreases ws.len(),
{
    if ws.len() == 0 {
        assert(words(Seq::<char>::empty()) =~= Seq::<Seq<char>>::empty());
        assert(words_of_all(Seq::<Seq<char>>::empty()) + words(Seq::<char>::empty()) =~= ws);
    } else {
        let prev = ws.drop_last();
        assert forall|i: int| 0 <= i < prev.len() implies is_word(#[trigger] prev[i]) by {
            assert(prev[i] == ws[i]);
        }
        lemma_wrap_state_keeps_words(prev, w);
        let (done, cur) = wrap_state(prev, w);
        let word = ws.last();
        assert(is_word(ws[ws.len() - 1]));
        lemma_words_of_word(word);
        if cur.len() == 0 {
            assert(words(cur) =~= Seq::<Seq<char>>::empty());
            assert(words_of_all(done) + seq![word] =~= prev.push(word));
        } else if byte_len(cur) + 1 + byte_len(word) <= w {
            lemma_words_join(cur, word);
            assert(words_of_all(done) + words(cur).push(word) =~= (words_of_all(done) + words(cur)).push(
                word,
            ));
        } else {
            lemma_words_of_all_push(done, cur);
            assert(words_of_all(done) + words(cur) + seq![word] =~= prev.push(word));
        }
        assert(prev.push(word) =~= ws);
    }
}

/// Wrapping the words of a line neither loses, adds nor reorders a word: the
/// words of the wrapped lines are the words wrapped.
pub proof fn lemma_wrap_words_keeps_words(ws: Seq<Seq<char>>, w: nat)
    requires
        forall|i: int| 0 <= i < ws.len() ==> is_word(#[trigger] ws[i]),
    ensures
        words_of_all(wrap_words(ws, w)) == ws,
{
    lemma_wrap_state_keeps_words(ws, w);
    let (done, cur) = wrap_state(ws, w);
    if cur.len() == 0 {
        assert(words(cur) =~= Seq::<Seq<char>>::empty());
        assert(words_of_all(done) + words(cur) =~= words_of_all(done));
    } else {
        lemma_words_of_all_push(done, cur);
    }
}

/// Wrapping a text neither loses, adds nor reorders a word: the words of
/// the wrapped lines are the words of the text's lines, in order, at any width.
pub proof fn lemma_wrap_lines_keeps_words(ls: Seq<Seq<char>>, w: nat)
    ensures
        words_of_all(wrap_lines(ls, w)) == words_of_all(ls),
    decreases ls.len(),
{
    if ls.len() > 0 {
        lemma_wrap_lines_keeps_words(ls.drop_last(), w);
        let ws = words(ls.last());
        lemma_words(ls.last());
        assert forall|i: int| 0 <= i < ws.len() implies is_word(#[trigger] ws[i]) by {}
        lemma_wrap_words_keeps_words(ws, w);
        lemma_words_of_all_concat(wrap_lines(ls.drop_last(), w), wrap_words(ws, w));
    }
}


/// Words joined by single spaces.
pub open spec fn join_words(ws: Seq<Seq<char>>) -> Seq<char>
    decreases ws.len(),
{
    if ws.len() == 0 {
        Seq::empty()
    } else if ws.len() == 1 {
        ws[0]
    } else {
        join_words(ws.drop_last()) + seq![' '] + ws.last()
    }
}

/// A line of the wrapping, as the words it holds joined by single spaces.
spec fn joined_line(l: Seq<char>) -> bool {
    words(l).len() > 0 && l == join_words(words(l))
}

proof fn lemma_wrap_state_greedy(ws: Seq<Seq<char>>, w: nat)
    requires
        forall|i: int| 0 <= i < ws.len() ==> is_word(#[trigger] ws[i]),
    ensures
        ({
            let (done, cur) = wrap_state(ws, w);
            &&& forall|i: int| 0 <= i < done.len() ==> joined_line(#[trigger] done[i])
            &&& cur.len() > 0 ==> joined_line(cur)
            &&& forall|i: int|
                0 <= i < done.len() - 1 ==> byte_len(#[trigger] done[i]) + 1 + byte_len(
                    words(done[i + 1])[0],
                ) > w
            &&& done.len() > 0 ==> cur.len() > 0 && byte_len(done.last()) + 1 + byte_len(
                words(cur)[0],
            ) > w
        }),
    decreases ws.len(),
{
    if ws.len() > 0 {
        let prev = ws.drop_last();
        assert forall|i: int| 0 <= i < prev.len() implies is_word(#[trigger] prev[i]) by {
            assert(prev[i] == ws[i]);
        }
        lemma_wrap_state_greedy(prev, w);
        let (done, cur) = wrap_state(prev, w);
        let word = ws.last();
        assert(is_word(ws[ws.len() - 1]));
        lemma_words_of_word(word);
        assert(join_words(seq![word]) == word);
        if cur.len() == 0 {
        } else if byte_len(cur) + 1 + byte_len(word) <= w {
            lemma_words_join(cur, word);
            let nw = words(cur).push(word);
            assert(nw.drop_last() =~= words(cur));
            assert(join_words(nw) == join_words(words(cur)) + seq![' '] + word);
            assert(words(cur + seq![' '] + word)[0] == words(cur)[0]);
        } else {
            let nd = done.push(cur);
            assert forall|i: int| 0 <= i < nd.len() implies joined_line(#[trigger] nd[i]) by {
                if i < done.len() {
                    assert(nd[i] == done[i]);
                }
            }
            assert forall|i: int| 0 <= i < nd.len() - 1 implies byte_len(#[trigger] nd[i]) + 1
                + byte_len(words(nd[i + 1])[0]) > w by {
                assert(nd[i] == done[i]);
                if i < done.len() - 1 {
                    assert(nd[i + 1] == done[i + 1]);
                } else {
                    assert(nd[i + 1] == cur);
                }
            }
        }
    }
}

/// Greedy wrapping: every wrapped line is the words it holds joined by single
/// spaces, and no line could have taken the first word of the line after it
/// (the line, a space and that word would be wider than `w` bytes).
pub proof fn lemma_wrap_words_greedy(ws: Seq<Seq<char>>, w: nat)
    requires
        forall|i: int| 0 <= i < ws.len() ==> is_word(#[trigger] ws[i]),
    ensures
        ({
            let ls = wrap_words(ws, w);
            &&& forall|i: int|
                0 <= i < ls.len() ==> words(#[trigger] ls[i]).len() > 0 && ls[i] == join_words(
                    words(ls[i]),
                )
            &&& forall|i: int|
                0 <= i < ls.len() - 1 ==> byte_len(#[trigger] ls[i]) + 1 + byte_len(
                    words(ls[i + 1])[0],
                ) > w
        }),
{
    lemma_wrap_state_greedy(ws, w);
    let (done, cur) = wrap_state(ws, w);
    let ls = wrap_words(ws, w);
    if cur.len() > 0 {
        assert forall|i: int| 0 <= i < ls.len() implies words(#[trigger] ls[i]).len() > 0 && ls[i]
            == join_words(words(ls[i])) by {
            if i < done.len() {
                assert(ls[i] == done[i]);
                assert(joined_line(done[i]));
            }
        }
        assert forall|i: int| 0 <= i < ls.len() - 1 implies byte_len(#[trigger] ls[i]) + 1
            + byte_len(words(ls[i + 1])[0]) > w by {
            assert(ls[i] == done[i]);
            if i < done.len() - 1 {
                assert(ls[i + 1] == done[i + 1]);
            } else {
                assert(ls[i + 1] == cur);
            }
        }
    }
}

/// Whether every character of `s` is ASCII.
pub open spec fn ascii(s: Seq<char>) -> bool {
    forall|j: int| 0 <= j < s.len() ==> (#[trigger] s[j] as u32) < 0x80
}

/// Whether every sequence in `ls` is ASCII.
pub open spec fn all_ascii(ls: Seq<Seq<char>>) -> bool {
    forall|i: int| 0 <= i < ls.len() ==> ascii(#[trigger] ls[i])
}

/// An ASCII text has as many bytes as characters.
pub proof fn lemma_ascii_byte_len(s: Seq<char>)
    requires
        ascii(s),
    ensures
        byte_len(s) == s.len(),
    decreases s.len(),
{
    if s.len() == 0 {
        lemma_byte_len_empty();
    } else {
        let t = s.drop_last();
        assert(ascii(t)) by {
            assert forall|j: int| 0 <= j < t.len() implies (#[trigger] t[j] as u32) < 0x80 by {
                assert(t[j] == s[j]);
            }
        }
        lemma_ascii_byte_len(t);
        assert(s =~= t.push(s.last()));
        lemma_byte_len_push(t, s.last());
        lemma_byte_len_single(s.last());
        assert((s[s.len() - 1] as u32) < 0x80);
    }
}

proof fn lemma_ascii_drop_last(s: Seq<char>)
    requires
        ascii(s),
        s.len() > 0,
    ensures
        ascii(s.drop_last()),
{
    assert forall|j: int| 0 <= j < s.drop_last().len() implies (#[trigger] s.drop_last()[j] as u32)
        < 0x80 by {
        assert(s.drop_last()[j] == s[j]);
    }
}

proof fn lemma_ascii_push(s: Seq<char>, c: char)
    requires
        ascii(s),
        (c as u32) < 0x80,
    ensures
        ascii(s.push(c)),
{
    assert forall|j: int| 0 <= j < s.push(c).len() implies (#[trigger] s.push(c)[j] as u32) < 0x80 by {
        if j < s.len() {
            assert(s.push(c)[j] == s[j]);
        }
    }
}

proof fn lemma_split_on_ascii(s: Seq<char>, sep: char)
    requires
        ascii(s),
    ensures
        all_ascii(split_on(s, sep)),
    decreases s.len(),
{
    if s.len() > 0 {
        lemma_ascii_drop_last(s);
        lemma_split_on_ascii(s.drop_last(), sep);
        lemma_split_on(s.drop_last(), sep);
        let p = split_on(s.drop_last(), sep);
        assert((s[s.len() - 1] as u32) < 0x80);
        if s.last() != sep {
            lemma_ascii_push(p.last(), s.last());
        }
    }
}

/// The lines of an ASCII text are ASCII.
pub proof fn lemma_text_lines_ascii(s: Seq<char>)
    requires
        ascii(s),
    ensures
        all_ascii(text_lines(s)),
{
    lemma_split_on_ascii(s, '\n');
    lemma_split_on(s, '\n');
    let p = split_on(s, '\n');
    assert forall|i: int| 0 <= i < text_lines(s).len() implies ascii(#[trigger] text_lines(s)[i]) by {
        if i < p.len() - 1 {
            assert(ascii(p[i]));
            if p[i].len() > 0 && p[i].last() == '\r' {
                lemma_ascii_drop_last(p[i]);
            }
        }
    }
}

/// The words of an ASCII text are ASCII.
pub proof fn lemma_words_ascii(s: Seq<char>)
    requires
        ascii(s),
    ensures
        all_ascii(words(s)),
    decreases s.len(),
{
    if s.len() > 0 {
        lemma_ascii_drop_last(s);
        lemma_words_ascii(s.drop_last());
        let c = s.last();
        assert((s[s.len() - 1] as u32) < 0x80);
        let w = words(s.drop_last());
        if !is_ws(c) {
            if s.len() >= 2 && !is_ws(s[s.len() - 2]) {
                lemma_words(s.drop_last());
                assert(s.drop_last().last() == s[s.len() - 2]);
                lemma_ascii_push(w.last(), c);
            } else {
                lemma_ascii_push(Seq::<char>::empty(), c);
                assert(seq![c] =~= Seq::<char>::empty().push(c));
            }
        }
    }
}

proof fn lemma_wrap_state_ascii(ws: Seq<Seq<char>>, w: nat)
    requires
        all_ascii(ws),
    ensures
        all_ascii(wrap_state(ws, w).0),
        ascii(wrap_state(ws, w).1),
    decreases ws.len(),
{
    if ws.len() > 0 {
        let prev = ws.drop_last();
        assert(all_ascii(prev)) by {
            assert forall|i: int| 0 <= i < prev.len() implies ascii(#[trigger] prev[i]) by {
                assert(prev[i] == ws[i]);
            }
        }
        lemma_wrap_state_ascii(prev, w);
        let (done, cur) = wrap_state(prev, w);
        let word = ws.last();
        assert(ascii(ws[ws.len() - 1]));
        if cur.len() != 0 && byte_len(cur) + 1 + byte_len(word) <= w {
            lemma_ascii_push(cur, ' ');
            assert(cur + seq![' '] =~= cur.push(' '));
            let j = cur + seq![' '] + word;
            assert forall|k: int| 0 <= k < j.len() implies (#[trigger] j[k] as u32) < 0x80 by {
                if k < cur.len() + 1 {
                    assert(j[k] == (cur + seq![' '])[k]);
                } else {
                    assert(j[k] == word[k - cur.len() - 1]);
                }
            }
        }
    }
}

/// The wrapped lines of an ASCII text are ASCII.
pub proof fn lemma_wrap_lines_ascii(ls: Seq<Seq<char>>, w: nat)
    requires
        all_ascii(ls),
    ensures
        all_ascii(wrap_lines(ls, w)),
    decreases ls.len(),
{
    if ls.len() > 0 {
        let prev = ls.drop_last();
        assert(all_ascii(prev)) by {
            assert forall|i: int| 0 <= i < prev.len() implies ascii(#[trigger] prev[i]) by {
                assert(prev[i] == ls[i]);
            }
        }
        lemma_wrap_lines_ascii(prev, w);
        assert(ascii(ls[ls.len() - 1]));
        lemma_words_ascii(ls.last());
        lemma_wrap_state_ascii(words(ls.last()), w);
        let a = wrap_lines(prev, w);
        let b = wrap_words(words(ls.last()), w);
        assert(all_ascii(b));
        assert forall|i: int| 0 <= i < (a + b).len() implies ascii(#[trigger] (a + b)[i]) by {
            if i < a.len() {
                assert((a + b)[i] == a[i]);
            } else {
                assert((a + b)[i] == b[i - a.len()]);
            }
        }
    }
}

} // verus!
