use vstd::prelude::*;
use crate::error::ReggieError;
use crate::text::push_char;
use vstd::string::*;

verus! {

/// An inline flag.
#[derive(Copy, Clone, Debug, PartialEq, Eq, Structural)]
pub enum Flag {
    Ascii,
    Ignorecase,
    Locale,
    Multiline,
    Dotall,
    Unicode,
    Verbose,
}

/// The flag that a code letter names.
pub open spec fn flag_of(c: char) -> Option<Flag> {
    if c == 'a' {
        Some(Flag::Ascii)
    } else if c == 'i' {
        Some(Flag::Ignorecase)
    } else if c == 'L' {
        Some(Flag::Locale)
    } else if c == 'm' {
        Some(Flag::Multiline)
    } else if c == 's' {
        Some(Flag::Dotall)
    } else if c == 'u' {
        Some(Flag::Unicode)
    } else if c == 'x' {
        Some(Flag::Verbose)
    } else {
        None
    }
}

/// The flag of a given rank in the fixed order `a i L m s u x`.
pub open spec fn flag_at(k: int) -> Flag {
    if k == 0 {
        Flag::Ascii
    } else if k == 1 {
        Flag::Ignorecase
    } else if k == 2 {
        Flag::Locale
    } else if k == 3 {
        Flag::Multiline
    } else if k == 4 {
        Flag::Dotall
    } else if k == 5 {
        Flag::Unicode
    } else {
        Flag::Verbose
    }
}

/// Whether every character of `s` is a flag code.
pub open spec fn all_flag_codes(s: Seq<char>) -> bool {
    forall|i: int| 0 <= i < s.len() ==> (flag_of(#[trigger] s[i]) is Some)
}

/// The flags whose codes occur in `s`.
pub open spec fn flags_in(s: Seq<char>) -> Set<Flag> {
    Set::new(|f: Flag| s.contains(f.code()))
}

impl Flag {
    pub open spec fn rank(self) -> int {
        match self {
            Flag::Ascii => 0,
            Flag::Ignorecase => 1,
            Flag::Locale => 2,
            Flag::Multiline => 3,
            Flag::Dotall => 4,
            Flag::Unicode => 5,
            Flag::Verbose => 6,
        }
    }

    /// The flag's one-letter code.
    pub open spec fn code(self) -> char {
        match self {
            Flag::Ascii => 'a',
            Flag::Ignorecase => 'i',
            Flag::Locale => 'L',
            Flag::Multiline => 'm',
            Flag::Dotall => 's',
            Flag::Unicode => 'u',
            Flag::Verbose => 'x',
        }
    }

    pub fn as_char(&self) -> (r: char)
        ensures
            r == self.code(),
    {
        match self {
            Flag::Ascii => 'a',
            Flag::Ignorecase => 'i',
            Flag::Locale => 'L',
            Flag::Multiline => 'm',
            Flag::Dotall => 's',
            Flag::Unicode => 'u',
            Flag::Verbose => 'x',
        }
    }

    fn rank_exec(&self) -> (r: usize)
        ensures
            r == self.rank(),
    {
        match self {
            Flag::Ascii => 0,
            Flag::Ignorecase => 1,
            Flag::Locale => 2,
            Flag::Multiline => 3,
            Flag::Dotall => 4,
            Flag::Unicode => 5,
            Flag::Verbose => 6,
        }
    }

    fn at_rank(k: usize) -> (r: Flag)
        requires
            k < 7,
        ensures
            r == flag_at(k as int),
            r.rank() == k,
    {
        match k {
            0 => Flag::Ascii,
            1 => Flag::Ignorecase,
            2 => Flag::Locale,
            3 => Flag::Multiline,
            4 => Flag::Dotall,
            5 => Flag::Unicode,
            _ => Flag::Verbose,
        }
    }

    /// The flag of a code letter.
    pub fn from_char(c: char) -> (r: Result<Flag, ReggieError>)
        ensures
            r is Ok <==> flag_of(c) is Some,
            r matches Ok(f) ==> Some(f) == flag_of(c) && f.code() == c,
            r matches Err(e) ==> e == (ReggieError::InvalidFlag { bad_flag: c }),
    {
        match c {
            'a' => Ok(Flag::Ascii),
            'i' => Ok(Flag::Ignorecase),
            'L' => Ok(Flag::Locale),
            'm' => Ok(Flag::Multiline),
            's' => Ok(Flag::Dotall),
            'u' => Ok(Flag::Unicode),
            'x' => Ok(Flag::Verbose),
            _ => Err(ReggieError::InvalidFlag { bad_flag: c }),
        }
    }

    /// The code letter as a string.
    pub fn as_string(&self) -> (r: String)
        ensures
            r@ == seq![self.code()],
    {
        let mut s = String::new();
        push_char(&mut s, self.as_char());
        s
    }
}

proof fn lemma_rank_injective(f: Flag, g: Flag)
    ensures
        f.rank() == g.rank() ==> f == g,
        0 <= f.rank() < 7,
        flag_at(f.rank()) == f,
{
}

proof fn lemma_code_injective(f: Flag, g: Flag)
    ensures
        f.code() == g.code() ==> f == g,
        flag_of(f.code()) == Some(f),
        f.code() != '-',
{
}

/// A set of flags, kept in the fixed flag order.
#[derive(Copy, Clone, Debug)]
pub struct Flags {
    present: [bool; 7],
}

impl Flags {
    pub closed spec fn has(&self, f: Flag) -> bool {
        self.present@[f.rank()]
    }

    /// The flags in the set.
    pub open spec fn set(&self) -> Set<Flag> {
        Set::new(|f: Flag| self.has(f))
    }

    /// Codes of the flags of rank below `k` that are in the set, in rank order.
    pub open spec fn codes_upto(&self, k: int) -> Seq<char>
        decreases k,
    {
        if k <= 0 {
            Seq::empty()
        } else if self.has(flag_at(k - 1)) {
            self.codes_upto(k - 1).push(flag_at(k - 1).code())
        } else {
            self.codes_upto(k - 1)
        }
    }

    /// Codes of all flags in the set, in rank order.
    pub open spec fn codes(&self) -> Seq<char> {
        self.codes_upto(7)
    }

    /// The set as a pattern writes it after `(`: `?` then the codes.
    pub open spec fn text(&self) -> Seq<char> {
        seq!['?'] + self.codes()
    }

    /// The codes of ranks below `k` are codes of flags in the set, and each
    /// flag of rank below `k` in the set has its code there.
    proof fn lemma_codes_upto(&self, k: int)
        requires
            0 <= k <= 7,
        ensures
            all_flag_codes(self.codes_upto(k)),
            forall|f: Flag|
                #[trigger] self.codes_upto(k).contains(f.code()) <==> (self.has(f) && f.rank() < k),
        decreases k,
    {
        if k > 0 {
            self.lemma_codes_upto(k - 1);
            let prev = self.codes_upto(k - 1);
            let fk = flag_at(k - 1);
            lemma_code_injective(fk, fk);
            assert forall|f: Flag| #[trigger] self.codes_upto(k).contains(f.code()) <==> (self.has(f)
                && f.rank() < k) by {
                lemma_rank_injective(f, fk);
                lemma_code_injective(f, fk);
                if self.has(fk) {
                    assert(self.codes_upto(k) == prev.push(fk.code()));
                    if self.codes_upto(k).contains(f.code()) {
                        let i = choose|i: int| 0 <= i < self.codes_upto(k).len() && self.codes_upto(k)[i] == f.code();
                        if i < prev.len() {
                            assert(prev[i] == f.code());
                        }
                    }
                    if prev.contains(f.code()) {
                        let i = choose|i: int| 0 <= i < prev.len() && prev[i] == f.code();
                        assert(self.codes_upto(k)[i] == f.code());
                    }
                    if f == fk {
                        assert(self.codes_upto(k)[prev.len() as int] == f.code());
                    }
                }
            }
            if self.has(fk) {
                assert forall|i: int| 0 <= i < self.codes_upto(k).len() implies (flag_of(
                    #[trigger] self.codes_upto(k)[i],
                ) is Some) by {
                    if i < prev.len() {
                        assert(self.codes_upto(k)[i] == prev[i]);
                    }
                }
            }
        }
    }

    /// The empty set.
    pub fn new() -> (r: Flags)
        ensures
            r.set() == Set::<Flag>::empty(),
    {
        let r = Flags { present: [false, false, false, false, false, false, false] };
        assert(r.set() =~= Set::<Flag>::empty());
        r
    }

    /// The set of one flag.
    pub fn new_single(flag: Flag) -> (r: Flags)
        ensures
            r.set() == Set::<Flag>::empty().insert(flag),
    {
        let mut r = Flags::new();
        r.add(flag);
        r
    }

    pub fn contains(&self, flag: Flag) -> (r: bool)
        ensures
            r == self.set().contains(flag),
    {
        self.present[flag.rank_exec()]
    }

    pub fn add(&mut self, flag: Flag)
        ensures
            final(self).set() == old(self).set().insert(flag),
    {
        let k = flag.rank_exec();
        self.present.set(k, true);
        proof {
            assert forall|f: Flag| #[trigger] final(self).has(f) == old(self).set().insert(flag).contains(f) by {
                lemma_rank_injective(f, flag);
            }
            assert(final(self).set() =~= old(self).set().insert(flag));
        }
    }

    pub fn remove(&mut self, flag: &Flag)
        ensures
            final(self).set() == old(self).set().remove(*flag),
    {
        let k = flag.rank_exec();
        self.present.set(k, false);
        proof {
            assert forall|f: Flag| #[trigger] final(self).has(f) == old(self).set().remove(*flag).contains(f) by {
                lemma_rank_injective(f, *flag);
            }
            assert(final(self).set() =~= old(self).set().remove(*flag));
        }
    }

    pub fn is_empty(&self) -> (r: bool)
        ensures
            r == (self.set() == Set::<Flag>::empty()),
    {
        let mut k: usize = 0;
        while k < 7
            invariant
                k <= 7,
                forall|j: int| 0 <= j < k ==> !self.has(#[trigger] flag_at(j)),
            decreases 7 - k,
        {
            if self.present[k] {
                let f = Flag::at_rank(k);
                assert(self.set().contains(f));
                assert(!(self.set() =~= Set::<Flag>::empty()));
                return false;
            }
            let f = Flag::at_rank(k);
            k += 1;
        }
        proof {
            assert forall|f: Flag| !self.set().contains(f) by {
                lemma_rank_injective(f, f);
                assert(!self.has(flag_at(f.rank())));
            }
            assert(self.set() =~= Set::<Flag>::empty());
        }
        true
    }

    /// `self` unless it is empty, then `other`.
    pub fn combine(&self, other: &Flags) -> (r: Flags)
        ensures
            r == (if self.set() == Set::<Flag>::empty() {
                *other
            } else {
                *self
            }),
    {
        if self.is_empty() {
            *other
        } else {
            *self
        }
    }

    /// `?` followed by the codes in the fixed flag order.
    pub fn as_string(&self) -> (r: String)
        ensures
            r@ == self.text(),
    {
        let mut s = String::new();
        push_char(&mut s, '?');
        self.push_codes(&mut s);
        s
    }

    /// Appends the codes in the fixed flag order.
    pub fn push_codes(&self, s: &mut String)
        ensures
            final(s)@ == old(s)@ + self.codes(),
    {
        let mut k: usize = 0;
        while k < 7
            invariant
                k <= 7,
                s@ == old(s)@ + self.codes_upto(k as int),
            decreases 7 - k,
        {
            if self.present[k] {
                let f = Flag::at_rank(k);
                push_char(s, f.as_char());
            }
            k += 1;
        }
    }

    /// The flags whose codes make up `s`; fails on the first character that
    /// is no flag code.
    pub fn from_text(s: &str) -> (r: Result<Flags, ReggieError>)
        ensures
            r is Ok <==> all_flag_codes(s@),
            r matches Ok(f) ==> f.set() == flags_in(s@),
            r matches Err(e) ==> e matches ReggieError::InvalidFlag { bad_flag } && s@.contains(
                bad_flag,
            ) && flag_of(bad_flag) is None,
    {
        let n = s.unicode_len();
        let mut flags = Flags::new();
        let mut i: usize = 0;
        while i < n
            invariant
                i <= n,
                n == s@.len(),
                all_flag_codes(s@.subrange(0, i as int)),
                flags.set() == flags_in(s@.subrange(0, i as int)),
            decreases n - i,
        {
            let c = s.get_char(i);
            match Flag::from_char(c) {
                Ok(f) => {
                    let ghost before = flags.set();
                    flags.add(f);
                    proof {
                        let p = s@.subrange(0, i + 1);
                        assert(p == s@.subrange(0, i as int).push(c));
                        assert forall|g: Flag| #[trigger] flags_in(p).contains(g) == flags.set().contains(g) by {
                            if g.code() == c {
                                assert(p[i as int] == c);
                                lemma_rank_injective(g, f);
                            }
                            if s@.subrange(0, i as int).contains(g.code()) {
                                let j = choose|j: int| 0 <= j < i && s@.subrange(0, i as int)[j] == g.code();
                                assert(p[j] == g.code());
                            }
                            if p.contains(g.code()) {
                                let j = choose|j: int| 0 <= j < p.len() && p[j] == g.code();
                                if j < i {
                                    assert(s@.subrange(0, i as int)[j] == g.code());
                                } else {
                                    assert(flag_of(c) == Some(g));
                                }
                            }
                        }
                        assert(flags.set() =~= flags_in(p));
                    }
                },
                Err(e) => {
                    assert(s@[i as int] == c);
                    assert(!all_flag_codes(s@));
                    return Err(e);
                },
            }
            i += 1;
        }
        assert(s@.subrange(0, n as int) == s@);
        Ok(flags)
    }
}

/// Sets with the same flags print the same codes.
pub proof fn lemma_same_flags_same_codes(a: Flags, b: Flags, k: int)
    requires
        a.set() == b.set(),
    ensures
        a.codes_upto(k) == b.codes_upto(k),
    decreases k,
{
    if k > 0 {
        lemma_same_flags_same_codes(a, b, k - 1);
        let f = flag_at(k - 1);
        assert(a.set().contains(f) == b.set().contains(f));
        assert(a.has(f) == a.set().contains(f));
        assert(b.has(f) == b.set().contains(f));
    }
}

/// Flags read back from their own codes are the same flags: every code is
/// a flag code, no code is `-`, and the codes name exactly the set.
pub proof fn flags_round_trip(f: Flags)
    ensures
        all_flag_codes(f.codes()),
        !f.codes().contains('-'),
        flags_in(f.codes()) == f.set(),
{
    f.lemma_codes_upto(7);
    assert forall|g: Flag| #[trigger] flags_in(f.codes()).contains(g) == f.set().contains(g) by {
        lemma_rank_injective(g, g);
    }
    assert(flags_in(f.codes()) =~= f.set());
    if f.codes().contains('-') {
        let i = choose|i: int| 0 <= i < f.codes().len() && f.codes()[i] == '-';
        assert(flag_of(f.codes()[i]) is Some);
    }
}

/// Flags that a group turns on and off for its own subtree.
#[derive(Copy, Clone, Debug)]
pub struct GroupFlags {
    pos: Flags,
    neg: Flags,
}

impl GroupFlags {
    pub closed spec fn pos_spec(&self) -> Flags {
        self.pos
    }

    pub closed spec fn neg_spec(&self) -> Flags {
        self.neg
    }

    /// Neither turns a flag on nor off.
    pub open spec fn is_none(&self) -> bool {
        self.pos_spec().set() == Set::<Flag>::empty() && self.neg_spec().set() == Set::<Flag>::empty()
    }

    /// No flag is both turned on and turned off.
    pub open spec fn wf(&self) -> bool {
        self.pos_spec().set().disjoint(self.neg_spec().set())
    }

    /// `?on` or, when some flag is turned off, `?on-off`.
    pub open spec fn text(&self) -> Seq<char> {
        if self.neg_spec().set() == Set::<Flag>::empty() {
            seq!['?'] + self.pos_spec().codes()
        } else {
            seq!['?'] + self.pos_spec().codes() + seq!['-'] + self.neg_spec().codes()
        }
    }

    pub fn empty() -> (r: GroupFlags)
        ensures
            r.wf(),
            r.pos_spec().set() == Set::<Flag>::empty(),
            r.neg_spec().set() == Set::<Flag>::empty(),
    {
        GroupFlags { pos: Flags::new(), neg: Flags::new() }
    }

    /// The flags turned on.
    pub fn pos(&self) -> (r: Flags)
        ensures
            r == self.pos_spec(),
    {
        self.pos
    }

    /// The flags turned off.
    pub fn neg(&self) -> (r: Flags)
        ensures
            r == self.neg_spec(),
    {
        self.neg
    }

    pub fn is_empty(&self) -> (r: bool)
        ensures
            r == (self.pos_spec().set() == Set::<Flag>::empty() && self.neg_spec().set()
                == Set::<Flag>::empty()),
    {
        self.pos.is_empty() && self.neg.is_empty()
    }

    /// Group flags from their two sets; fails with the code of a flag that is
    /// in both.
    pub fn new(pos: Flags, neg: Flags) -> (r: Result<GroupFlags, ReggieError>)
        ensures
            r is Ok <==> pos.set().disjoint(neg.set()),
            r matches Ok(g) ==> g.wf() && g.pos_spec() == pos && g.neg_spec() == neg,
            r matches Err(e) ==> e matches ReggieError::InvalidFlag { bad_flag } && flag_of(
                bad_flag,
            ) matches Some(f) && pos.set().contains(f) && neg.set().contains(f),
    {
        let mut k: usize = 0;
        while k < 7
            invariant
                k <= 7,
                forall|j: int|
                    0 <= j < k ==> !(pos.set().contains(#[trigger] flag_at(j)) && neg.set().contains(
                        flag_at(j),
                    )),
            decreases 7 - k,
        {
            let f = Flag::at_rank(k);
            if pos.contains(f) && neg.contains(f) {
                proof {
                    assert(flag_of(f.code()) == Some(f)) by {
                        lemma_rank_injective(f, f);
                    }
                }
                return Err(ReggieError::InvalidFlag { bad_flag: f.as_char() });
            }
            k += 1;
        }
        proof {
            assert forall|f: Flag| !(pos.set().contains(f) && neg.set().contains(f)) by {
                lemma_rank_injective(f, f);
                assert(!(pos.set().contains(flag_at(f.rank())) && neg.set().contains(
                    flag_at(f.rank()),
                )));
            }
        }
        Ok(GroupFlags { pos, neg })
    }

    /// The nearer of two flag scopes: `self` unless it is empty, then `other`.
    /// Flags of the two scopes are not merged.
    pub fn combine(&self, other: &GroupFlags) -> (r: GroupFlags)
        ensures
            r == (if self.is_none() {
                *other
            } else {
                *self
            }),
    {
        if self.is_empty() {
            *other
        } else {
            *self
        }
    }

    pub fn as_string(&self) -> (r: String)
        ensures
            r@ == self.text(),
    {
        let mut s = String::new();
        push_char(&mut s, '?');
        self.pos.push_codes(&mut s);
        if !self.neg.is_empty() {
            push_char(&mut s, '-');
            self.neg.push_codes(&mut s);
        }
        s
    }
}

} // verus!
