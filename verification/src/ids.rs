//! Entity identifiers and the storage-side identifier allocator.
//!
//! An [`Id`] is an opaque, comparable identifier carried as a string.  The
//! storage layer assigns identifiers to new entities; the in-memory storage of
//! this crate does so through [`IdGen`], whose identifiers are the decimal
//! renderings of a strictly increasing counter and therefore provably pairwise
//! distinct.
use vstd::prelude::*;

verus! {

/// An opaque, globally unique, comparable identifier.
#[derive(Debug, Clone)]
pub struct Id(pub String);

impl View for Id {
    type V = Seq<char>;

    open spec fn view(&self) -> Seq<char> {
        self.0@
    }
}

impl DeepView for Id {
    type V = Seq<char>;

    open spec fn deep_view(&self) -> Seq<char> {
        self.0@
    }
}

impl PartialEq for Id {
    fn eq(&self, other: &Id) -> (r: bool) {
        self.0 == other.0
    }
}

impl Eq for Id {

}

impl vstd::std_specs::cmp::PartialEqSpecImpl for Id {
    open spec fn obeys_eq_spec() -> bool {
        true
    }

    open spec fn eq_spec(&self, other: &Id) -> bool {
        self.0@ == other.0@
    }
}

impl Id {
    pub fn from_str(s: &str) -> (r: Id)
        ensures
            r@ == s@,
    {
        Id(String::from_str(s))
    }

    pub fn new(val: String) -> (r: Id)
        ensures
            r@ == val@,
    {
        Id(val)
    }

    /// An owned copy of this identifier, equal to the original.
    pub fn dup(&self) -> (r: Id)
        ensures
            r == *self,
    {
        Id(self.0.clone())
    }
}

/// The character for a single decimal digit.
pub open spec fn digit_char(d: nat) -> char {
    if d == 0 {
        '0'
    } else if d == 1 {
        '1'
    } else if d == 2 {
        '2'
    } else if d == 3 {
        '3'
    } else if d == 4 {
        '4'
    } else if d == 5 {
        '5'
    } else if d == 6 {
        '6'
    } else if d == 7 {
        '7'
    } else if d == 8 {
        '8'
    } else {
        '9'
    }
}

/// The decimal rendering of a natural number, most significant digit first.
pub open spec fn dec_digits(n: nat) -> Seq<char>
    decreases n,
{
    if n < 10 {
        seq![digit_char(n)]
    } else {
        dec_digits(n / 10).push(digit_char(n % 10))
    }
}

proof fn lemma_dec_digits_len(n: nat)
    ensures
        dec_digits(n).len() >= 1,
        n >= 10 ==> dec_digits(n).len() >= 2,
    decreases n,
{
    if n >= 10 {
        lemma_dec_digits_len(n / 10);
    }
}

/// Distinct numbers have distinct decimal renderings.
pub proof fn lemma_dec_digits_injective(a: nat, b: nat)
    requires
        dec_digits(a) == dec_digits(b),
    ensures
        a == b,
    decreases a,
{
    lemma_dec_digits_len(a);
    lemma_dec_digits_len(b);
    if a < 10 && b < 10 {
        assert(dec_digits(a) == seq![digit_char(a)]);
        assert(dec_digits(b) == seq![digit_char(b)]);
        assert(seq![digit_char(a)][0] == digit_char(a));
        assert(seq![digit_char(b)][0] == digit_char(b));
        assert(digit_char(a) == digit_char(b));
        assert(a == b);
    } else if a < 10 && b >= 10 {
        assert(dec_digits(a).len() == 1);
        assert(false);
    } else if a >= 10 && b < 10 {
        assert(dec_digits(b).len() == 1);
        assert(false);
    } else {
        let da = dec_digits(a / 10);
        let db = dec_digits(b / 10);
        assert(da.push(digit_char(a % 10)).last() == digit_char(a % 10));
        assert(db.push(digit_char(b % 10)).last() == digit_char(b % 10));
        assert(digit_char(a % 10) == digit_char(b % 10));
        assert(a % 10 == b % 10);
        assert(da.push(digit_char(a % 10)).drop_last() =~= da);
        assert(db.push(digit_char(b % 10)).drop_last() =~= db);
        assert(da == db);
        lemma_dec_digits_injective(a / 10, b / 10);
        assert(a == (a / 10) * 10 + a % 10) by (nonlinear_arith);
        assert(b == (b / 10) * 10 + b % 10) by (nonlinear_arith);
        assert(a == b);
    }
}

fn digit_str(d: u64) -> (r: &'static str)
    requires
        d < 10,
    ensures
        r@ == seq![digit_char(d as nat)],
{
    proof {
        reveal_strlit("0");
        reveal_strlit("1");
        reveal_strlit("2");
        reveal_strlit("3");
        reveal_strlit("4");
        reveal_strlit("5");
        reveal_strlit("6");
        reveal_strlit("7");
        reveal_strlit("8");
        reveal_strlit("9");
    }
    match d {
        0 => "0",
        1 => "1",
        2 => "2",
        3 => "3",
        4 => "4",
        5 => "5",
        6 => "6",
        7 => "7",
        8 => "8",
        _ => "9",
    }
}

/// The decimal rendering of `n` as an owned string.
pub fn dec_string(n: u64) -> (r: String)
    ensures
        r@ == dec_digits(n as nat),
    decreases n,
{
    if n < 10 {
        String::from_str(digit_str(n))
    } else {
        assert(n / 10 < n);
        let mut s = dec_string(n / 10);
        s.append(digit_str(n % 10));
        proof {
            assert(dec_digits((n / 10) as nat) + seq![digit_char((n % 10) as nat)] =~= dec_digits(
                (n / 10) as nat,
            ).push(digit_char((n % 10) as nat)));
        }
        s
    }
}

/// The storage layer's identifier allocator: a strictly increasing counter
/// whose decimal renderings are handed out as identifiers.
#[derive(Debug)]
pub struct IdGen {
    next: u64,
}

impl View for IdGen {
    type V = nat;

    closed spec fn view(&self) -> nat {
        self.next as nat
    }
}

impl IdGen {
    pub fn new() -> (r: IdGen)
        ensures
            r@ == 0,
    {
        IdGen { next: 0 }
    }

    /// Allocate the next identifier.  The result is the decimal rendering of
    /// the current counter value, so identifiers from one allocator never
    /// repeat.
    /// Whether the allocator can still hand out `n` identifiers.
    pub fn fits(&self, n: u64) -> (r: bool)
        ensures
            r == (self@ + n <= u64::MAX),
    {
        self.next <= u64::MAX - n
    }

    pub fn fresh(&mut self) -> (r: Id)
        requires
            old(self)@ < u64::MAX,
        ensures
            r@ == dec_digits(old(self)@),
            final(self)@ == old(self)@ + 1,
    {
        let id = Id(dec_string(self.next));
        self.next = self.next + 1;
        id
    }
}

} // verus!
