use vstd::prelude::*;

verus! {

/// Unicode's `White_Space` property.
pub open spec fn is_white(c: char) -> bool {
    ('\u{9}' <= c && c <= '\u{d}') || c == ' ' || c == '\u{85}' || c == '\u{a0}' || c == '\u{1680}'
        || ('\u{2000}' <= c && c <= '\u{200a}') || c == '\u{2028}' || c == '\u{2029}' || c == '\u{202f}'
        || c == '\u{205f}' || c == '\u{3000}'
}

/// Characters that end a bareword.
pub open spec fn special(c: char) -> bool {
    c == '(' || c == ')' || c == '\'' || c == '"' || c == '`' || c == '#' || is_white(c)
}

pub open spec fn is_quote(c: char) -> bool {
    c == '\'' || c == '"' || c == '`'
}

/// Characters that open or close a block or a string.
pub open spec fn structural(c: char) -> bool {
    c == '(' || c == ')' || is_quote(c)
}

/// Where the bareword that continues at `i` ends.
pub open spec fn word_end(s: Seq<char>, i: int) -> int
    decreases s.len() - i,
{
    if 0 <= i < s.len() && !special(s[i]) {
        word_end(s, i + 1)
    } else {
        i
    }
}

/// Where the comment whose text continues at `i` ends: just past the next
/// line break, or at the end.
pub open spec fn comment_end(s: Seq<char>, i: int) -> int
    decreases s.len() - i,
{
    if i < 0 || i >= s.len() {
        i
    } else if s[i] == '\n' {
        i + 1
    } else {
        comment_end(s, i + 1)
    }
}

pub proof fn lemma_comment_end_grows(s: Seq<char>, i: int)
    ensures
        comment_end(s, i) >= i,
        0 <= i <= s.len() ==> comment_end(s, i) <= s.len(),
    decreases s.len() - i,
{
    if 0 <= i < s.len() && s[i] != '\n' {
        lemma_comment_end_grows(s, i + 1);
    }
}

pub proof fn lemma_word_end_grows(s: Seq<char>, i: int)
    ensures
        word_end(s, i) >= i,
        0 <= i <= s.len() ==> word_end(s, i) <= s.len(),
    decreases s.len() - i,
{
    if 0 <= i < s.len() && !special(s[i]) {
        lemma_word_end_grows(s, i + 1);
    }
}

/// A token: a bareword, the text of a fenced string, a block delimiter, or a
/// string that does not close before the end.
pub enum Token {
    Word(Seq<char>),
    Text(Seq<char>),
    Open,
    Close,
    Unclosed,
}

/// The tokens of text read from `i`, skipping white space and comments; a
/// string that does not close ends the list with `Unclosed`.
pub open spec fn words(s: Seq<char>, i: int) -> Seq<Token>
    decreases s.len() - i
    via words_decreases
{
    if i < 0 || i >= s.len() {
        Seq::empty()
    } else if is_white(s[i]) {
        words(s, i + 1)
    } else if s[i] == '#' {
        words(s, comment_end(s, i + 1))
    } else if is_quote(s[i]) {
        match fenced(s, i) {
            Some((t, e)) => if i < e <= s.len() {
                seq![Token::Text(t)] + words(s, e)
            } else {
                Seq::empty()
            },
            None => seq![Token::Unclosed],
        }
    } else if s[i] == '(' {
        seq![Token::Open] + words(s, i + 1)
    } else if s[i] == ')' {
        seq![Token::Close] + words(s, i + 1)
    } else {
        let e = word_end(s, i + 1);
        seq![Token::Word(s.subrange(i, e))] + words(s, e)
    }
}

#[via_fn]
proof fn words_decreases(s: Seq<char>, i: int) {
    lemma_comment_end_grows(s, i + 1);
    lemma_word_end_grows(s, i + 1);
}

/// Whether a character is white space.
pub fn is_whitespace_char(c: char) -> (r: bool)
    ensures
        r == is_white(c),
{
    ('\u{9}' <= c && c <= '\u{d}') || c == ' ' || c == '\u{85}' || c == '\u{a0}' || c == '\u{1680}'
        || ('\u{2000}' <= c && c <= '\u{200a}') || c == '\u{2028}' || c == '\u{2029}' || c == '\u{202f}'
        || c == '\u{205f}' || c == '\u{3000}'
}

/// Whether a character ends a bareword.
pub fn is_special_char(c: char) -> (r: bool)
    ensures
        r == special(c),
{
    match c {
        '(' | ')' | '\'' | '"' | '`' | '#' => true,
        _ => is_whitespace_char(c),
    }
}

/// The first position at or after `i` that is not white space.
pub fn skip_whitespace(s: &Vec<char>, i: usize) -> (r: usize)
    requires
        i <= s@.len(),
    ensures
        i <= r <= s@.len(),
        forall|k: int| i <= k < r ==> is_white(#[trigger] s@[k]),
        r < s@.len() ==> !is_white(s@[r as int]),
        words(s@, i as int) == words(s@, r as int),
{
    let mut j = i;
    while j < s.len() && is_whitespace_char(s[j])
        invariant
            i <= j <= s@.len(),
            forall|k: int| i <= k < j ==> is_white(#[trigger] s@[k]),
            words(s@, i as int) == words(s@, j as int),
        decreases s@.len() - j,
    {
        j = j + 1;
    }
    j
}

/// The end of the bareword that starts at `i`: the first special character
/// at or after `i`, or the end.
pub fn scan_bareword(s: &Vec<char>, i: usize) -> (r: usize)
    requires
        i <= s@.len(),
    ensures
        i <= r <= s@.len(),
        forall|k: int| i <= k < r ==> !special(#[trigger] s@[k]),
        r < s@.len() ==> special(s@[r as int]),
        r == word_end(s@, i as int),
{
    let mut j = i;
    while j < s.len() && !is_special_char(s[j])
        invariant
            i <= j <= s@.len(),
            word_end(s@, i as int) == word_end(s@, j as int),
            forall|k: int| i <= k < j ==> !special(#[trigger] s@[k]),
        decreases s@.len() - j,
    {
        j = j + 1;
    }
    j
}

/// The end of a comment that starts at `i`: just past the next line break,
/// or the end.
pub fn skip_comment(s: &Vec<char>, i: usize) -> (r: usize)
    requires
        i <= s@.len(),
    ensures
        i <= r <= s@.len(),
        r > i ==> forall|k: int| i <= k < r - 1 ==> #[trigger] s@[k] != '\n',
        r < s@.len() ==> r > i && s@[r - 1] == '\n',
        r == i ==> i == s@.len(),
        i < s@.len() && s@[i as int] == '#' ==> r == comment_end(s@, i + 1),
{
    let mut j = i;
    while j < s.len()
        invariant
            i <= j <= s@.len(),
            i < j && s@[i as int] == '#' ==> comment_end(s@, i + 1) == comment_end(s@, j as int),
            i == j && j < s@.len() && s@[i as int] == '#' ==> comment_end(s@, i + 1) == comment_end(s@, j + 1),
            forall|k: int| i <= k < j ==> #[trigger] s@[k] != '\n',
        decreases s@.len() - j,
    {
        if s[j] == '\n' {
            return j + 1;
        }
        j = j + 1;
    }
    j
}

/// Length of the run of `c` that starts at `i`.
pub open spec fn run_len(s: Seq<char>, i: int, c: char) -> nat
    decreases s.len() - i,
{
    if 0 <= i < s.len() && s[i] == c {
        1 + run_len(s, i + 1, c)
    } else {
        0
    }
}

/// How many quote characters an inner run of `m` stands for inside a string
/// fenced by `n` of them: a single fence halves the run, rounding up.
pub open spec fn inner_run(m: nat, n: nat) -> nat {
    if n == 1 {
        ((m + 1) / 2) as nat
    } else {
        m
    }
}

/// The body of a string fenced by `n` characters `c`, read from `i`: the
/// text and the position just past the closing run, or `None` if the input
/// ends first.
pub open spec fn fence_body(s: Seq<char>, i: int, c: char, n: nat) -> Option<(Seq<char>, int)>
    decreases s.len() - i
    via fence_body_decreases
{
    if i < 0 || i >= s.len() {
        None
    } else if s[i] == c {
        let m = 1 + run_len(s, i + 1, c);
        if m == n {
            Some((Seq::empty(), i + m))
        } else {
            match fence_body(s, i + m, c, n) {
                Some((t, e)) => Some((Seq::new(inner_run(m, n), |_k: int| c) + t, e)),
                None => None,
            }
        }
    } else {
        match fence_body(s, i + 1, c, n) {
            Some((t, e)) => Some((seq![s[i]] + t, e)),
            None => None,
        }
    }
}

/// A run never reaches past the end.
pub proof fn lemma_run_len_bound(s: Seq<char>, i: int, c: char)
    requires
        0 <= i,
    ensures
        i + run_len(s, i, c) <= s.len() || run_len(s, i, c) == 0,
    decreases s.len() - i,
{
    if 0 <= i < s.len() && s[i] == c {
        lemma_run_len_bound(s, i + 1, c);
    }
}

#[via_fn]
proof fn fence_body_decreases(s: Seq<char>, i: int, c: char, n: nat) {
    if 0 <= i < s.len() && s[i] == c {
        lemma_run_len_bound(s, i + 1, c);
    }
}

/// A fenced string whose opening run starts at `i`.
pub open spec fn fenced(s: Seq<char>, i: int) -> Option<(Seq<char>, int)> {
    let c = s[i];
    fence_body(s, i + run_len(s, i, c), c, run_len(s, i, c))
}

/// Adds a prefix to the text of a fenced-string result.
pub open spec fn prefixed(a: Seq<char>, o: Option<(Seq<char>, int)>) -> Option<(Seq<char>, int)> {
    match o {
        Some((t, e)) => Some((a + t, e)),
        None => None,
    }
}

/// The end of the run of `c` that starts at `i`.
pub fn run_end(s: &Vec<char>, i: usize, c: char) -> (r: usize)
    requires
        i <= s@.len(),
    ensures
        r == i + run_len(s@, i as int, c),
        r <= s@.len(),
{
    let mut j = i;
    while j < s.len() && s[j] == c
        invariant
            i <= j <= s@.len(),
            run_len(s@, i as int, c) == (j - i) + run_len(s@, j as int, c),
        decreases s@.len() - j,
    {
        j = j + 1;
    }
    j
}

/// Appends `q` copies of `c`.
fn push_run(acc: &mut Vec<char>, c: char, q: usize)
    ensures
        final(acc)@ == old(acc)@ + Seq::new(q as nat, |_k: int| c),
{
    let mut t: usize = 0;
    while t < q
        invariant
            t <= q,
            acc@ == old(acc)@ + Seq::new(t as nat, |_k: int| c),
        decreases q - t,
    {
        acc.push(c);
        t = t + 1;
        assert(acc@ =~= old(acc)@ + Seq::new(t as nat, |_k: int| c));
    }
}

/// Reads the fenced string whose opening run starts at `i`: its text and the
/// position just past its closing run, or `None` if the input ends first.
pub fn parse_string(s: &Vec<char>, i: usize) -> (r: Option<(Vec<char>, usize)>)
    requires
        i < s@.len(),
    ensures
        match r {
            Some((t, e)) => fenced(s@, i as int) == Some((t@, e as int)),
            None => fenced(s@, i as int) is None,
        },
{
    let c = s[i];
    let open_end = run_end(s, i, c);
    let n = open_end - i;
    let ghost nn = n as nat;
    let mut acc: Vec<char> = Vec::new();
    let mut j = open_end;
    assert(fenced(s@, i as int) == fence_body(s@, open_end as int, c, nn));
    assert(acc@ + Seq::<char>::empty() =~= acc@);
    loop
        invariant
            open_end <= j <= s@.len(),
            n == run_len(s@, i as int, c),
            open_end == i + n,
            nn == n,
            c == s@[i as int],
            fenced(s@, i as int) == fence_body(s@, open_end as int, c, nn),
            fence_body(s@, open_end as int, c, nn) == prefixed(acc@, fence_body(s@, j as int, c, nn)),
        decreases s@.len() - j,
    {
        if j >= s.len() {
            return None;
        }
        if s[j] == c {
            let k = run_end(s, j, c);
            let m = k - j;
            assert(run_len(s@, j as int, c) == 1 + run_len(s@, j + 1, c));
            if m == n {
                assert(acc@ + Seq::<char>::empty() =~= acc@);
                return Some((acc, k));
            }
            let q = if n == 1 { (m + 1) / 2 } else { m };
            let ghost before = acc@;
            proof {
                assert(inner_run(m as nat, nn) == q as nat);
                assert(fence_body(s@, j as int, c, nn) == prefixed(
                    Seq::new(inner_run(m as nat, nn), |_k: int| c), fence_body(s@, k as int, c, nn)));
            }
            push_run(&mut acc, c, q);
            proof {
                let rep = Seq::new(inner_run(m as nat, nn), |_k: int| c);
                assert(rep =~= Seq::new(q as nat, |_k: int| c));
                match fence_body(s@, k as int, c, nn) {
                    Some((u, e)) => {
                        assert(before + (rep + u) =~= acc@ + u);
                    },
                    None => {},
                }
            }
            j = k;
        } else {
            let ghost before = acc@;
            acc.push(s[j]);
            proof {
                assert(fence_body(s@, j as int, c, nn) == prefixed(seq![s@[j as int]], fence_body(s@, j + 1, c, nn)));
                match fence_body(s@, j + 1, c, nn) {
                    Some((u, e)) => {
                        assert(before + (seq![s@[j as int]] + u) =~= acc@ + u);
                    },
                    None => {},
                }
            }
            j = j + 1;
        }
    }
}

pub open spec fn is_digit(c: char) -> bool {
    '0' <= c && c <= '9'
}

pub open spec fn digit_val(c: char) -> int {
    c as int - '0' as int
}

/// The value of a sequence of decimal digits.
pub open spec fn digits_value(d: Seq<char>) -> int
    decreases d.len(),
{
    if d.len() == 0 {
        0
    } else {
        digits_value(d.drop_last()) * 10 + digit_val(d.last())
    }
}

/// The digits of a decimal integer token, after an optional sign.
pub open spec fn unsigned_part(s: Seq<char>) -> Seq<char> {
    if s.len() > 0 && (s[0] == '-' || s[0] == '+') {
        s.drop_first()
    } else {
        s
    }
}

/// The integer a token spells: an optional `+` or `-`, then one or more
/// decimal digits, with a value that fits in 64 signed bits.
pub open spec fn int_of(s: Seq<char>) -> Option<i64> {
    let d = unsigned_part(s);
    let v = if s.len() > 0 && s[0] == '-' { -digits_value(d) } else { digits_value(d) };
    if d.len() == 0 || !(forall|k: int| 0 <= k < d.len() ==> is_digit(#[trigger] d[k])) {
        None
    } else if i64::MIN <= v && v <= i64::MAX {
        Some(v as i64)
    } else {
        None
    }
}

/// Parses a token as a 64-bit signed decimal integer.
pub fn parse_int(s: &Vec<char>) -> (r: Option<i64>)
    ensures
        r == int_of(s@),
{
    let limit: u64 = 9223372036854775808;
    let neg = s.len() > 0 && s[0] == '-';
    let st: usize = if s.len() > 0 && (s[0] == '-' || s[0] == '+') { 1 } else { 0 };
    let ghost d = unsigned_part(s@);
    assert(d =~= s@.subrange(st as int, s@.len() as int));
    if st >= s.len() {
        return None;
    }
    let mut acc: u64 = 0;
    let mut over = false;
    let mut k = st;
    while k < s.len()
        invariant
            st <= k <= s@.len(),
            d == s@.subrange(st as int, s@.len() as int),
            d == unsigned_part(s@),
            forall|j: int| st <= j < k ==> is_digit(#[trigger] s@[j]),
            !over ==> acc as int == digits_value(s@.subrange(st as int, k as int)) && acc <= limit,
            over ==> digits_value(s@.subrange(st as int, k as int)) > limit,
            limit == 9223372036854775808u64,
        decreases s@.len() - k,
    {
        let c = s[k];
        if !('0' <= c && c <= '9') {
            assert(!is_digit(d[k - st]));
            return None;
        }
        let dv = (c as u32 - '0' as u32) as u64;
        let ghost prev = s@.subrange(st as int, k as int);
        assert(s@.subrange(st as int, k + 1).drop_last() =~= prev);
        assert(digits_value(s@.subrange(st as int, k + 1)) == digits_value(prev) * 10 + dv);
        if !over {
            if acc > (limit - dv) / 10 {
                over = true;
            } else {
                acc = acc * 10 + dv;
            }
        }
        k = k + 1;
    }
    assert(s@.subrange(st as int, k as int) =~= d);
    if over {
        return None;
    }
    if neg {
        if acc == limit {
            Some(i64::MIN)
        } else {
            Some(-(acc as i64))
        }
    } else if acc < limit {
        Some(acc as i64)
    } else {
        None
    }
}

/// Where a fenced-string result ends.
pub open spec fn end_of(o: Option<(Seq<char>, int)>) -> int {
    match o {
        Some((_t, e)) => e,
        None => 0,
    }
}

/// A fenced string that closes ends after its opening run and within the input.
pub proof fn lemma_fence_body_bounds(s: Seq<char>, j: int, c: char, n: nat)
    requires
        0 <= j,
        fence_body(s, j, c, n) is Some,
    ensures
        j < end_of(fence_body(s, j, c, n)) <= s.len(),
    decreases s.len() - j,
{
    if s[j] == c {
        lemma_run_len_bound(s, j + 1, c);
        let m = 1 + run_len(s, j + 1, c);
        if m != n {
            lemma_fence_body_bounds(s, j + m, c, n);
        }
    } else {
        lemma_fence_body_bounds(s, j + 1, c, n);
    }
}

pub proof fn lemma_fenced_progress(s: Seq<char>, i: int)
    requires
        0 <= i < s.len(),
        fenced(s, i) is Some,
    ensures
        i < end_of(fenced(s, i)) <= s.len(),
{
    let c = s[i];
    lemma_run_len_bound(s, i + 1, c);
    assert(run_len(s, i, c) == 1 + run_len(s, i + 1, c));
    lemma_fence_body_bounds(s, i + run_len(s, i, c), c, run_len(s, i, c));
}

} // verus!
