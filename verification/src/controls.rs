//! The Control-Backspace rule of the text editor.
use vstd::prelude::*;

verus! {

/// Characters at which Control-Backspace stops: a space or end-of-sentence punctuation.
pub open spec fn is_stop(c: char) -> bool {
    c == ' ' || c == '.' || c == '?' || c == '!'
}

/// Index of the last stop character of `s`, or `-1` when it has none.
pub open spec fn last_stop(s: Seq<char>) -> int
    decreases s.len(),
{
    if s.len() == 0 {
        -1
    } else if is_stop(s.last()) {
        s.len() - 1
    } else {
        last_stop(s.drop_last())
    }
}

/// Length of the run of `c` at the end of `s`.
pub open spec fn trailing_run(s: Seq<char>, c: char) -> nat
    decreases s.len(),
{
    if s.len() == 0 || s.last() != c {
        0
    } else {
        1 + trailing_run(s.drop_last(), c)
    }
}

/// The buffer after Control-Backspace.
///
/// Without any space the whole buffer goes. Otherwise everything after the
/// last stop character goes, and then the run of characters equal to the new
/// last character, unless that run is the whole buffer.
pub open spec fn backspace_word(s: Seq<char>) -> Seq<char> {
    if !s.contains(' ') {
        Seq::empty()
    } else {
        let t = s.take(last_stop(s) + 1);
        let k = trailing_run(t, t.last());
        if k < t.len() {
            t.take(t.len() - k)
        } else {
            t
        }
    }
}

proof fn lemma_last_stop(s: Seq<char>)
    ensures
        -1 <= last_stop(s) < s.len(),
        last_stop(s) >= 0 ==> is_stop(s[last_stop(s)]),
        forall|i: int| last_stop(s) < i < s.len() ==> !is_stop(#[trigger] s[i]),
        (exists|i: int| 0 <= i < s.len() && is_stop(s[i])) ==> last_stop(s) >= 0,
    decreases s.len(),
{
    if s.len() > 0 {
        lemma_last_stop(s.drop_last());
        assert forall|i: int| 0 <= i < s.len() - 1 implies s.drop_last()[i] == s[i] by {}
        if !is_stop(s.last()) && (exists|i: int| 0 <= i < s.len() && is_stop(s[i])) {
            let i = choose|i: int| 0 <= i < s.len() && is_stop(s[i]);
            assert(s.drop_last()[i] == s[i]);
        }
    }
}

proof fn lemma_trailing_run(s: Seq<char>, c: char)
    ensures
        trailing_run(s, c) <= s.len(),
        forall|i: int| s.len() - trailing_run(s, c) <= i < s.len() ==> #[trigger] s[i] == c,
        trailing_run(s, c) < s.len() ==> s[s.len() - trailing_run(s, c) - 1] != c,
    decreases s.len(),
{
    if s.len() > 0 && s.last() == c {
        lemma_trailing_run(s.drop_last(), c);
        assert forall|i: int| 0 <= i < s.len() - 1 implies s.drop_last()[i] == s[i] by {}
    }
}

/// Control-Backspace only ever cuts the end off the buffer: what is left is
/// a prefix of what was there.
pub proof fn lemma_backspace_keeps_prefix(s: Seq<char>)
    ensures
        backspace_word(s).len() <= s.len(),
        backspace_word(s) == s.take(backspace_word(s).len() as int),
{
    if s.contains(' ') {
        lemma_last_stop(s);
        let j = choose|j: int| 0 <= j < s.len() && s[j] == ' ';
        assert(is_stop(s[j]));
        let t = s.take(last_stop(s) + 1);
        lemma_trailing_run(t, t.last());
        let k = trailing_run(t, t.last());
        if k < t.len() {
            assert(t.take(t.len() - k) =~= s.take(t.len() - k));
        } else {
            assert(t =~= s.take(t.len() as int));
        }
    } else {
        assert(Seq::<char>::empty() =~= s.take(0));
    }
}

/// When the buffer holds a space and ends in a run of `k` copies of a space,
/// `.`, `?` or `!` that is not the whole buffer, Control-Backspace removes
/// exactly that run and keeps everything before it.
pub proof fn lemma_backspace_trailing_stop_run(s: Seq<char>, k: int)
    requires
        s.contains(' '),
        s.len() > 0,
        s.last() == ' ' || s.last() == '.' || s.last() == '?' || s.last() == '!',
        0 < k < s.len(),
        forall|i: int| s.len() - k <= i < s.len() ==> #[trigger] s[i] == s.last(),
        s[s.len() - k - 1] != s.last(),
    ensures
        backspace_word(s) == s.take(s.len() - k),
{
    assert(last_stop(s) == s.len() - 1);
    assert(s.take(s.len() as int) =~= s);
    let c = s.last();
    lemma_trailing_run(s, c);
    let r = trailing_run(s, c) as int;
    if r > k {
        assert(s[s.len() - k - 1] == c);
    }
    if r < k {
        assert(s[s.len() - r - 1] == c);
    }
    assert(r == k);
}

/// Control-Backspace deletes the last word together with the space before
/// it: for a text `t` that does not end in a space, followed by one space and
/// a word without spaces or `.`, `?`, `!`, what is left is `t`.
pub proof fn lemma_backspace_deletes_last_word(t: Seq<char>, w: Seq<char>)
    requires
        t.len() > 0,
        t.last() != ' ',
        forall|i: int|
            0 <= i < w.len() ==> #[trigger] w[i] != ' ' && w[i] != '.' && w[i] != '?' && w[i] != '!',
    ensures
        backspace_word(t + seq![' '] + w) == t,
{
    let s = t + seq![' '] + w;
    let n = t.len() as int;
    assert(s[n] == ' ');
    assert(s.contains(' '));
    lemma_last_stop(s);
    let ls = last_stop(s);
    if ls < n {
        assert(!is_stop(s[n]));
    }
    if ls > n {
        assert(s[ls] == w[ls - n - 1]);
    }
    assert(ls == n);
    let u = s.take(n + 1);
    assert(u =~= t.push(' '));
    lemma_trailing_run(u, ' ');
    let r = trailing_run(u, ' ') as int;
    if r >= 2 {
        assert(u[u.len() - 2] == ' ');
        assert(u[u.len() - 2] == t.last());
    }
    assert(r == 1);
    assert(u.take(u.len() - 1) =~= t);
}

/// Deletes the last word of the buffer, as Control-Backspace does in the editor.
pub fn control_backspace(text_buf: &mut Vec<char>)
    ensures
        final(text_buf)@ == backspace_word(old(text_buf)@),
{
    let ghost s = text_buf@;
    // Does the buffer hold a space?
    let mut has_space = false;
    let mut i: usize = 0;
    while i < text_buf.len()
        invariant
            text_buf@ == s,
            i <= s.len(),
            has_space <==> exists|j: int| 0 <= j < i && s[j] == ' ',
        decreases s.len() - i,
    {
        if text_buf[i] == ' ' {
            has_space = true;
        }
        i += 1;
    }
    proof {
        if has_space {
            let j = choose|j: int| 0 <= j < s.len() && s[j] == ' ';
            assert(s.contains(' '));
        } else {
            assert(!s.contains(' '));
        }
    }
    if !has_space {
        text_buf.clear();
        return;
    }
    proof {
        lemma_last_stop(s);
        let j = choose|j: int| 0 <= j < s.len() && s[j] == ' ';
        assert(is_stop(s[j]));
    }
    // Find the last stop character, scanning from the end.
    let mut p: usize = text_buf.len();
    while p > 0 && !(text_buf[p - 1] == ' ' || text_buf[p - 1] == '.' || text_buf[p - 1] == '?'
        || text_buf[p - 1] == '!')
        invariant
            text_buf@ == s,
            p <= s.len(),
            last_stop(s) < p,
            -1 <= last_stop(s) < s.len(),
            last_stop(s) >= 0 ==> is_stop(s[last_stop(s)]),
            forall|i: int| last_stop(s) < i < s.len() ==> !is_stop(#[trigger] s[i]),
        decreases p,
    {
        p -= 1;
    }
    assert(p as int == last_stop(s) + 1);
    text_buf.truncate(p);
    let ghost t = text_buf@;
    assert(t =~= s.take(last_stop(s) + 1));
    let last_ch = text_buf[p - 1];
    proof {
        lemma_trailing_run(t, last_ch);
    }
    // Length of the run of `last_ch` at the end.
    let mut k: usize = 0;
    while k < p && text_buf[p - 1 - k] == last_ch
        invariant
            text_buf@ == t,
            t.len() == p,
            p > 0,
            last_ch == t.last(),
            k <= trailing_run(t, last_ch),
            trailing_run(t, last_ch) <= t.len(),
            forall|i: int| t.len() - trailing_run(t, last_ch) <= i < t.len() ==> #[trigger] t[i] == last_ch,
            trailing_run(t, last_ch) < t.len() ==> t[t.len() - trailing_run(t, last_ch) - 1] != last_ch,
        decreases p - k,
    {
        k += 1;
    }
    assert(k == trailing_run(t, last_ch));
    if k < p {
        text_buf.truncate(p - k);
    }
}

} // verus!
