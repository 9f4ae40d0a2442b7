//! Numbers and names as text.
use vstd::prelude::*;

verus! {

/// The decimal digit for a number below ten.
pub open spec fn digit(d: nat) -> char {
    if d == 0 {
        '0'
    } else if d == 1 {
        '1'
    } else if d == 2 {
        '2'
    } else if d == 3 {
        '3'
    } else if d == 4 {
        '4'
    } else if d == 5 {
        '5'
    } else if d == 6 {
        '6'
    } else if d == 7 {
        '7'
    } else if d == 8 {
        '8'
    } else {
        '9'
    }
}

/// A number in decimal digits, without leading zeros.
pub open spec fn decimal_of(n: nat) -> Seq<char>
    decreases n,
{
    if n < 10 {
        seq![digit(n)]
    } else {
        decimal_of(n / 10).push(digit(n % 10))
    }
}

fn digit_text(d: u32) -> (r: &'static str)
    requires
        d < 10,
    ensures
        r@ == seq![digit(d as nat)],
{
    proof {
        reveal_strlit("0");
        reveal_strlit("1");
        reveal_strlit("2");
        reveal_strlit("3");
        reveal_strlit("4");
        reveal_strlit("5");
        reveal_strlit("6");
        reveal_strlit("7");
        reveal_strlit("8");
        reveal_strlit("9");
    }
    if d == 0 {
        "0"
    } else if d == 1 {
        "1"
    } else if d == 2 {
        "2"
    } else if d == 3 {
        "3"
    } else if d == 4 {
        "4"
    } else if d == 5 {
        "5"
    } else if d == 6 {
        "6"
    } else if d == 7 {
        "7"
    } else if d == 8 {
        "8"
    } else {
        "9"
    }
}

/// A number in decimal digits.
pub fn decimal(n: u32) -> (r: String)
    ensures
        r@ == decimal_of(n as nat),
    decreases n,
{
    if n < 10 {
        let r: String = digit_text(n).to_owned();
        r
    } else {
        let mut r: String = decimal(n / 10);
        r.append(digit_text(n % 10));
        proof {
            assert(r@ =~= decimal_of(n as nat));
        }
        r
    }
}

/// Two texts, one after the other.
pub fn glue(a: &str, b: &str) -> (r: String)
    ensures
        r@ == a@ + b@,
{
    let mut r: String = a.to_owned();
    r.append(b);
    r
}

/// Three texts, one after the other.
pub fn glue3(a: &str, b: &str, c: &str) -> (r: String)
    ensures
        r@ == a@ + b@ + c@,
{
    let mut r: String = glue(a, b);
    r.append(c);
    r
}

/// What a list of texts says.
pub open spec fn texts(v: Seq<String>) -> Seq<Seq<char>> {
    v.map_values(|s: String| s@)
}

/// One more text says one more thing.
pub proof fn lemma_texts_push(v: Seq<String>, s: String)
    ensures
        texts(v.push(s)) == texts(v).push(s@),
{
    assert(texts(v.push(s)) =~= texts(v).push(s@));
}

/// A list of one text.
pub fn one_text(a: String) -> (r: Vec<String>)
    ensures
        texts(r@) == seq![a@],
{
    let mut r: Vec<String> = Vec::new();
    r.push(a);
    assert(texts(r@) =~= seq![a@]);
    r
}

/// A list of two texts.
pub fn two_texts(a: String, b: String) -> (r: Vec<String>)
    ensures
        texts(r@) == seq![a@, b@],
{
    let mut r: Vec<String> = Vec::new();
    r.push(a);
    r.push(b);
    assert(texts(r@) =~= seq![a@, b@]);
    r
}

/// A list of no texts.
pub fn no_texts() -> (r: Vec<String>)
    ensures
        texts(r@) == Seq::<Seq<char>>::empty(),
{
    let r: Vec<String> = Vec::new();
    assert(texts(r@) =~= Seq::<Seq<char>>::empty());
    r
}

/// The characters of a text.
pub fn letters(s: &str) -> (r: Vec<char>)
    ensures
        r@ == s@,
{
    let n: usize = s.unicode_len();
    let mut r: Vec<char> = Vec::new();
    let mut i: usize = 0;
    while i < n
        invariant
            n == s@.len(),
            i <= n,
            r@ == s@.take(i as int),
        decreases n - i,
    {
        r.push(s.get_char(i));
        i = i + 1;
        assert(r@ =~= s@.take(i as int));
    }
    assert(s@.take(n as int) =~= s@);
    r
}

/// The text `needle` stands in `hay` from position `i` on.
pub open spec fn stands_at(hay: Seq<char>, needle: Seq<char>, i: int) -> bool {
    0 <= i <= hay.len() - needle.len() && hay.subrange(i, i + needle.len()) == needle
}

/// The text `needle` stands somewhere in `hay`.
pub open spec fn contains_text(hay: Seq<char>, needle: Seq<char>) -> bool {
    exists|i: int| #[trigger] stands_at(hay, needle, i)
}

/// Whether a text stands in another from position `i` on.
fn stands(h: &Vec<char>, n: &Vec<char>, i: usize) -> (r: bool)
    requires
        i + n@.len() <= h@.len(),
    ensures
        r == stands_at(h@, n@, i as int),
{
    let total: usize = h.len();
    let mut j: usize = 0;
    while j < n.len()
        invariant
            i + n@.len() <= h@.len(),
            total == h@.len(),
            j <= n@.len(),
            forall|k: int| 0 <= k < j ==> h@[i + k] == n@[k],
        decreases n@.len() - j,
    {
        if h[i + j] != n[j] {
            assert(h@.subrange(i as int, i + n@.len())[j as int] == h@[i + j]);
            return false;
        }
        j = j + 1;
    }
    assert(h@.subrange(i as int, i + n@.len()) =~= n@);
    true
}

/// Whether a text stands somewhere in another.
pub fn contains(hay: &str, needle: &str) -> (r: bool)
    ensures
        r == contains_text(hay@, needle@),
{
    let h: Vec<char> = letters(hay);
    let n: Vec<char> = letters(needle);
    let mut i: usize = 0;
    while i < h.len() && n.len() <= h.len() - i
        invariant
            h@ == hay@,
            n@ == needle@,
            i <= h@.len(),
            forall|k: int| 0 <= k < i ==> !#[trigger] stands_at(hay@, needle@, k),
        decreases h@.len() - i,
    {
        if stands(&h, &n, i) {
            return true;
        }
        i = i + 1;
    }
    if i == h.len() && n.len() == 0 {
        assert(hay@.subrange(i as int, i as int) =~= needle@);
        assert(stands_at(hay@, needle@, i as int));
        return true;
    }
    false
}

} // verus!
