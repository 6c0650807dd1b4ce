//! Identifiers: sets of names, numbered names and a supply of fresh ones.
use vstd::prelude::*;

verus! {

/// The mathematical value of an identifier: its characters.
pub type Name = Seq<char>;

/// The character of a decimal digit.
pub open spec fn digit(d: nat) -> char {
    if d == 0 {
        '0'
    } else if d == 1 {
        '1'
    } else if d == 2 {
        '2'
    } else if d == 3 {
        '3'
    } else if d == 4 {
        '4'
    } else if d == 5 {
        '5'
    } else if d == 6 {
        '6'
    } else if d == 7 {
        '7'
    } else if d == 8 {
        '8'
    } else {
        '9'
    }
}

/// The decimal numeral of `n`, most significant digit first, without leading zeros.
pub open spec fn decimal(n: nat) -> Seq<char>
    decreases n,
{
    if n < 10 {
        seq![digit(n)]
    } else {
        decimal(n / 10).push(digit(n % 10))
    }
}

/// The name made of `prefix` followed by the decimal numeral of `n`.
pub open spec fn numbered(prefix: char, n: nat) -> Name {
    seq![prefix] + decimal(n)
}

/// A numeral is never empty.
pub proof fn lemma_decimal_len(n: nat)
    ensures
        decimal(n).len() >= 1,
        n >= 10 ==> decimal(n).len() >= 2,
    decreases n,
{
    if n >= 10 {
        lemma_decimal_len(n / 10);
    }
}

/// Different numbers have different numerals.
pub proof fn lemma_decimal_injective(a: nat, b: nat)
    requires
        decimal(a) == decimal(b),
    ensures
        a == b,
    decreases a,
{
    lemma_decimal_len(a);
    lemma_decimal_len(b);
    if a < 10 || b < 10 {
        assert(a < 10 && b < 10);
        assert(decimal(a)[0] == digit(a));
        assert(decimal(b)[0] == digit(b));
    } else {
        let x = decimal(a / 10);
        let y = decimal(b / 10);
        assert(x.push(digit(a % 10)) == y.push(digit(b % 10)));
        assert(x.push(digit(a % 10)).last() == digit(a % 10));
        assert(y.push(digit(b % 10)).last() == digit(b % 10));
        assert(x.push(digit(a % 10)).drop_last() =~= x);
        assert(y.push(digit(b % 10)).drop_last() =~= y);
        lemma_decimal_injective(a / 10, b / 10);
    }
}

/// Different numbers give different names under one prefix.
pub proof fn lemma_numbered_injective(prefix: char, a: nat, b: nat)
    requires
        numbered(prefix, a) == numbered(prefix, b),
    ensures
        a == b,
{
    assert(numbered(prefix, a).subrange(1, numbered(prefix, a).len() as int) =~= decimal(a));
    assert(numbered(prefix, b).subrange(1, numbered(prefix, b).len() as int) =~= decimal(b));
    lemma_decimal_injective(a, b);
}

/// The first `n` names under `prefix`.
pub open spec fn first_numbered(prefix: char, n: nat) -> Set<Name>
    decreases n,
{
    if n == 0 {
        Set::empty()
    } else {
        first_numbered(prefix, (n - 1) as nat).insert(numbered(prefix, (n - 1) as nat))
    }
}

/// The first `n` names under a prefix are `n` different names.
proof fn lemma_first_numbered(prefix: char, n: nat)
    ensures
        first_numbered(prefix, n).finite(),
        first_numbered(prefix, n).len() == n,
        forall|name: Name|
            first_numbered(prefix, n).contains(name) <==> exists|j: nat|
                j < n && name == #[trigger] numbered(prefix, j),
    decreases n,
{
    if n > 0 {
        let m = (n - 1) as nat;
        lemma_first_numbered(prefix, m);
        if first_numbered(prefix, m).contains(numbered(prefix, m)) {
            let j = choose|j: nat| j < m && numbered(prefix, m) == #[trigger] numbered(prefix, j);
            lemma_numbered_injective(prefix, m, j);
        }
        assert forall|name: Name|
            first_numbered(prefix, n).contains(name) <==> exists|j: nat|
                j < n && name == #[trigger] numbered(prefix, j) by {
            if first_numbered(prefix, n).contains(name) {
                if name == numbered(prefix, m) {
                    assert(m < n && name == numbered(prefix, m));
                } else {
                    let j = choose|j: nat| j < m && name == #[trigger] numbered(prefix, j);
                    assert(j < n && name == numbered(prefix, j));
                }
            }
            if exists|j: nat| j < n && name == #[trigger] numbered(prefix, j) {
                let j = choose|j: nat| j < n && name == #[trigger] numbered(prefix, j);
                if j < m {
                    assert(first_numbered(prefix, m).contains(name));
                }
            }
        }
    }
}

/// A finite set that holds the first `n` names under a prefix has at least `n` members.
pub proof fn lemma_numbered_pigeonhole(prefix: char, used: Set<Name>, n: nat)
    requires
        used.finite(),
        forall|j: nat| j < n ==> used.contains(#[trigger] numbered(prefix, j)),
    ensures
        n <= used.len(),
{
    lemma_first_numbered(prefix, n);
    assert(first_numbered(prefix, n).subset_of(used)) by {
        assert forall|name: Name| first_numbered(prefix, n).contains(name) implies used.contains(
            name,
        ) by {
            let j = choose|j: nat| j < n && name == #[trigger] numbered(prefix, j);
        }
    }
    vstd::set_lib::lemma_len_subset(first_numbered(prefix, n), used);
}

/// `i` is the least number whose name under `prefix` is not in `used`.
pub open spec fn is_first_unused(prefix: char, used: Set<Name>, i: nat) -> bool {
    &&& !used.contains(numbered(prefix, i))
    &&& forall|j: nat| j < i ==> used.contains(#[trigger] numbered(prefix, j))
}

/// The least number whose name under `prefix` is not in `used`.
pub open spec fn first_unused(prefix: char, used: Set<Name>) -> nat {
    choose|i: nat| is_first_unused(prefix, used, i)
}

/// The name `x0`, `x1`, ... with the least number that is not in `used`.
pub open spec fn fresh_name(used: Set<Name>) -> Name {
    numbered('x', first_unused('x', used))
}

/// There is only one least unused number.
pub proof fn lemma_first_unused_unique(prefix: char, used: Set<Name>, i: nat)
    requires
        is_first_unused(prefix, used, i),
    ensures
        first_unused(prefix, used) == i,
{
    let k = first_unused(prefix, used);
    assert(is_first_unused(prefix, used, k));
    if k < i {
        assert(used.contains(numbered(prefix, k)));
    }
    if i < k {
        assert(used.contains(numbered(prefix, i)));
    }
}

/// Every finite set leaves a name unused, and the fresh name is one.
pub proof fn lemma_fresh_name(used: Set<Name>)
    requires
        used.finite(),
    ensures
        is_first_unused('x', used, first_unused('x', used)),
        !used.contains(fresh_name(used)),
{
    let i = lemma_first_unused_exists('x', used, 0);
    lemma_first_unused_unique('x', used, i);
}

/// From any number on, a finite set leaves a least unused number.
proof fn lemma_first_unused_exists(prefix: char, used: Set<Name>, from: nat) -> (i: nat)
    requires
        used.finite(),
        forall|j: nat| j < from ==> used.contains(#[trigger] numbered(prefix, j)),
    ensures
        is_first_unused(prefix, used, i),
    decreases used.len() - from,
{
    lemma_numbered_pigeonhole(prefix, used, from);
    if used.contains(numbered(prefix, from)) {
        lemma_numbered_pigeonhole(prefix, used, from + 1);
        lemma_first_unused_exists(prefix, used, from + 1)
    } else {
        from
    }
}


/// The views of a sequence of strings.
pub open spec fn name_views(names: Seq<String>) -> Seq<Name> {
    names.map_values(|n: String| n@)
}

/// `seen` followed by the names of `more` that are not in it, each once, in their order.
pub open spec fn names_after(seen: Seq<Name>, more: Seq<Name>) -> Seq<Name>
    decreases more.len(),
{
    if more.len() == 0 {
        seen
    } else {
        let before = names_after(seen, more.drop_last());
        if before.contains(more.last()) {
            before
        } else {
            before.push(more.last())
        }
    }
}

/// The names without `name`, in their order.
pub open spec fn names_without(names: Seq<Name>, name: Name) -> Seq<Name>
    decreases names.len(),
{
    if names.len() == 0 {
        names
    } else {
        let front = names_without(names.drop_last(), name);
        if names.last() == name {
            front
        } else {
            front.push(names.last())
        }
    }
}

/// Names that do not hold `name` are themselves without it.
pub proof fn lemma_without_absent(names: Seq<Name>, name: Name)
    requires
        !names.contains(name),
    ensures
        names_without(names, name) == names,
    decreases names.len(),
{
    if names.len() > 0 {
        let front = names.drop_last();
        assert forall|k: int| 0 <= k < front.len() implies front[k] != name by {
            assert(names[k] == front[k]);
            assert(names.contains(names[k]));
        }
        assert(!front.contains(name));
        lemma_without_absent(front, name);
        assert(names.last() == names[names.len() - 1]);
        assert(names.contains(names[names.len() - 1]));
        assert(front.push(names.last()) =~= names);
    }
}

/// Names that hold `name` once, at place `i`, are without it what they are with that place
/// removed.
pub proof fn lemma_without_remove(names: Seq<Name>, name: Name, i: int)
    requires
        names.no_duplicates(),
        0 <= i < names.len(),
        names[i] == name,
    ensures
        names_without(names, name) == names.remove(i),
    decreases names.len(),
{
    let front = names.drop_last();
    if i == names.len() - 1 {
        assert forall|k: int| 0 <= k < front.len() implies front[k] != name by {
            assert(names[k] == front[k]);
        }
        assert(!front.contains(name));
        lemma_without_absent(front, name);
        assert(names.remove(i) =~= front);
    } else {
        assert(front.no_duplicates());
        assert(front[i] == name);
        lemma_without_remove(front, name, i);
        assert(names.last() != name);
        assert(front.remove(i).push(names.last()) =~= names.remove(i));
    }
}

/// A finite set of names, kept in the order in which they were inserted.
#[derive(Debug)]
pub struct NameSet {
    names: Vec<String>,
}

impl View for NameSet {
    type V = Set<Name>;

    closed spec fn view(&self) -> Set<Name> {
        self.order().to_set()
    }
}

impl NameSet {
    #[verifier::type_invariant]
    spec fn distinct(self) -> bool {
        name_views(self.names@).no_duplicates()
    }

    /// The members in the order of their insertion.
    pub closed spec fn order(&self) -> Seq<Name> {
        name_views(self.names@)
    }

    /// The members are the names of `order`, and they are finitely many.
    pub proof fn lemma_order(&self)
        ensures
            self.order().to_set() == self@,
            self@.finite(),
    {
    }

    /// The empty set.
    pub fn new() -> (s: Self)
        ensures
            s@ == Set::<Name>::empty(),
            s.order() == Seq::<Name>::empty(),
    {
        let s = NameSet { names: Vec::new() };
        assert(s.order() =~= Seq::<Name>::empty());
        assert(s@ =~= Set::<Name>::empty());
        s
    }

    /// The number of members.
    pub fn len(&self) -> (n: usize)
        ensures
            n == self@.len(),
            n == self.order().len(),
    {
        proof {
            use_type_invariant(self);
            self.order().unique_seq_to_set();
        }
        self.names.len()
    }

    /// Whether the set has no member.
    pub fn is_empty(&self) -> (b: bool)
        ensures
            b == (self@ == Set::<Name>::empty()),
    {
        proof {
            if self.names@.len() > 0 {
                assert(self.order().to_set().contains(self.order()[0]));
            } else {
                assert(self@ =~= Set::<Name>::empty());
            }
        }
        self.names.len() == 0
    }

    /// The member at position `i` of the insertion order.
    pub fn get(&self, i: usize) -> (name: &String)
        requires
            i < self.order().len(),
        ensures
            name@ == self.order()[i as int],
    {
        &self.names[i]
    }

    /// The position of `name` in the insertion order, if it is a member.
    fn position(&self, name: &String) -> (at: Option<usize>)
        ensures
            match at {
                Some(i) => i < self.order().len() && self.order()[i as int] == name@,
                None => !self@.contains(name@),
            },
    {
        let mut i: usize = 0;
        while i < self.names.len()
            invariant
                i <= self.names.len(),
                forall|j: int| 0 <= j < i ==> self.order()[j] != name@,
            decreases self.names.len() - i,
        {
            if self.names[i] == *name {
                return Some(i);
            }
            i = i + 1;
        }
        None
    }

    /// Whether `name` is a member.
    pub fn contains(&self, name: &str) -> (found: bool)
        ensures
            found == self@.contains(name@),
    {
        let wanted = String::from_str(name);
        match self.position(&wanted) {
            Some(i) => {
                assert(self.order().to_set().contains(self.order()[i as int]));
                true
            },
            None => false,
        }
    }

    /// Adds `name`; returns whether it was new.
    pub fn insert(&mut self, name: String) -> (added: bool)
        ensures
            final(self)@ == old(self)@.insert(name@),
            added == !old(self)@.contains(name@),
            final(self).order() == if added {
                old(self).order().push(name@)
            } else {
                old(self).order()
            },
    {
        proof {
            use_type_invariant(&*self);
        }
        match self.position(&name) {
            Some(i) => {
                assert(self.order().to_set().contains(self.order()[i as int]));
                assert(self@ =~= self@.insert(name@));
                false
            },
            None => {
                let ghost before = self.order();
                let mut names: Vec<String> = Vec::new();
                std::mem::swap(&mut names, &mut self.names);
                names.push(name);
                assert(name_views(names@) =~= before.push(name@));
                self.names = names;
                assert(self.order() =~= before.push(name@));
                assert(self@ =~= before.to_set().insert(name@)) by {
                    assert forall|n: Name| self@.contains(n) <==> before.to_set().insert(
                        name@,
                    ).contains(n) by {
                        if self@.contains(n) {
                            let k = choose|k: int|
                                0 <= k < self.order().len() && self.order()[k] == n;
                            if k < before.len() {
                                assert(before[k] == n);
                            }
                        }
                        if before.to_set().contains(n) {
                            let k = choose|k: int| 0 <= k < before.len() && before[k] == n;
                            assert(self.order()[k] == n);
                        }
                        if n == name@ {
                            assert(self.order()[before.len() as int] == n);
                        }
                    }
                }
                true
            },
        }
    }

    /// Removes `name`; returns whether it was a member.
    pub fn remove(&mut self, name: &str) -> (removed: bool)
        ensures
            final(self)@ == old(self)@.remove(name@),
            removed == old(self)@.contains(name@),
            final(self).order() == names_without(old(self).order(), name@),
    {
        proof {
            use_type_invariant(&*self);
        }
        let wanted = String::from_str(name);
        match self.position(&wanted) {
            Some(i) => {
                let ghost before = self.order();
                assert(before.to_set().contains(before[i as int]));
                let mut names: Vec<String> = Vec::new();
                std::mem::swap(&mut names, &mut self.names);
                names.remove(i);
                assert(name_views(names@) =~= before.remove(i as int));
                self.names = names;
                assert(self.order() =~= before.remove(i as int));
                proof {
                    lemma_without_remove(before, name@, i as int);
                }
                assert(self@ =~= before.to_set().remove(name@)) by {
                    assert forall|n: Name| self@.contains(n) <==> before.to_set().remove(
                        name@,
                    ).contains(n) by {
                        if self@.contains(n) {
                            let k = choose|k: int|
                                0 <= k < self.order().len() && self.order()[k] == n;
                            if k < i {
                                assert(before[k] == n);
                            } else {
                                assert(before[k + 1] == n);
                            }
                        }
                        if before.to_set().contains(n) && n != name@ {
                            let k = choose|k: int| 0 <= k < before.len() && before[k] == n;
                            if k < i {
                                assert(self.order()[k] == n);
                            } else {
                                assert(self.order()[k - 1] == n);
                            }
                        }
                    }
                }
                true
            },
            None => {
                assert(self@ =~= self@.remove(name@));
                proof {
                    lemma_without_absent(self.order(), name@);
                }
                false
            },
        }
    }

    /// Adds every member of `other`, in the order of `other`.
    pub fn extend(&mut self, other: &NameSet)
        ensures
            final(self)@ == old(self)@.union(other@),
            final(self).order() == names_after(old(self).order(), other.order()),
    {
        let mut i: usize = 0;
        while i < other.names.len()
            invariant
                i <= other.names.len(),
                self@ == old(self)@.union(other.order().take(i as int).to_set()),
                self.order() == names_after(old(self).order(), other.order().take(i as int)),
            decreases other.names.len() - i,
        {
            proof {
                self.lemma_order();
                assert(other.order().take(i + 1).drop_last() =~= other.order().take(i as int));
            }
            let ghost before = self@;
            self.insert(other.names[i].clone());
            proof {
                let head = other.order().take(i as int);
                let next = other.order().take(i + 1);
                assert(next =~= head.push(other.order()[i as int]));
                assert(next.to_set() =~= head.to_set().insert(other.order()[i as int])) by {
                    assert forall|n: Name| next.to_set().contains(n) <==> head.to_set().insert(
                        other.order()[i as int],
                    ).contains(n) by {
                        if next.to_set().contains(n) {
                            let k = choose|k: int| 0 <= k < next.len() && next[k] == n;
                            if k < head.len() {
                                assert(head[k] == n);
                            }
                        }
                        if head.to_set().contains(n) {
                            let k = choose|k: int| 0 <= k < head.len() && head[k] == n;
                            assert(next[k] == n);
                        }
                        if n == other.order()[i as int] {
                            assert(next[i as int] == n);
                        }
                    }
                }
                assert(self@ =~= old(self)@.union(next.to_set()));
            }
            i = i + 1;
        }
        assert(other.order().take(other.order().len() as int) =~= other.order());
    }
}



impl Clone for NameSet {
    /// A set with the same members in the same order.
    fn clone(&self) -> (copy: Self)
        ensures
            copy@ == self@,
            copy.order() == self.order(),
    {
        proof {
            use_type_invariant(self);
        }
        let mut names: Vec<String> = Vec::new();
        let mut i: usize = 0;
        while i < self.names.len()
            invariant
                i <= self.names.len(),
                names@.len() == i,
                forall|j: int| 0 <= j < i ==> names@[j]@ == self.names@[j]@,
            decreases self.names.len() - i,
        {
            names.push(self.names[i].clone());
            i = i + 1;
        }
        assert(name_views(names@) =~= name_views(self.names@));
        NameSet { names }
    }
}

/// The text of one decimal digit.
fn digit_text(d: u8) -> (text: &'static str)
    requires
        d < 10,
    ensures
        text@ == seq![digit(d as nat)],
{
    proof {
        reveal_strlit("0");
        reveal_strlit("1");
        reveal_strlit("2");
        reveal_strlit("3");
        reveal_strlit("4");
        reveal_strlit("5");
        reveal_strlit("6");
        reveal_strlit("7");
        reveal_strlit("8");
        reveal_strlit("9");
    }
    let text = if d == 0 {
        "0"
    } else if d == 1 {
        "1"
    } else if d == 2 {
        "2"
    } else if d == 3 {
        "3"
    } else if d == 4 {
        "4"
    } else if d == 5 {
        "5"
    } else if d == 6 {
        "6"
    } else if d == 7 {
        "7"
    } else if d == 8 {
        "8"
    } else {
        "9"
    };
    assert(text@ =~= seq![digit(d as nat)]);
    text
}

/// The decimal numeral of `n` as text.
pub fn decimal_text(n: u64) -> (text: String)
    ensures
        text@ == decimal(n as nat),
    decreases n,
{
    if n < 10 {
        String::from_str(digit_text(n as u8))
    } else {
        let mut text = decimal_text(n / 10);
        text.append(digit_text((n % 10) as u8));
        assert(text@ =~= decimal(n as nat));
        text
    }
}

/// The number that a sequence of decimal digits denotes, most significant digit first.
pub open spec fn digits_value(digits: Seq<u8>) -> nat
    decreases digits.len(),
{
    if digits.len() == 0 {
        0
    } else {
        10 * digits_value(digits.drop_last()) + digits.last() as nat
    }
}

/// Decimal digits without a leading zero; the empty sequence stands for zero.
pub open spec fn canonical_digits(digits: Seq<u8>) -> bool {
    &&& forall|i: int| 0 <= i < digits.len() ==> digits[i] < 10
    &&& digits.len() > 0 ==> digits[0] != 0
}

/// The characters of a sequence of digits.
pub open spec fn digit_chars(digits: Seq<u8>) -> Seq<char> {
    digits.map_values(|d: u8| digit(d as nat))
}

/// Canonical digits are the numeral of the number they denote.
pub proof fn lemma_canonical_digits(digits: Seq<u8>)
    requires
        canonical_digits(digits),
        digits.len() > 0,
    ensures
        digits_value(digits) >= 1,
        decimal(digits_value(digits)) == digit_chars(digits),
    decreases digits.len(),
{
    let rest = digits.drop_last();
    if digits.len() == 1 {
        assert(rest.len() == 0);
        assert(digits_value(rest) == 0);
        assert(digit_chars(digits) =~= seq![digit(digits[0] as nat)]);
    } else {
        lemma_canonical_digits(rest);
        let n = digits_value(digits);
        assert(n / 10 == digits_value(rest));
        assert(n % 10 == digits.last() as nat);
        assert(digit_chars(digits) =~= digit_chars(rest).push(digit(digits.last() as nat)));
    }
}

/// The digits of the number that follows the one `digits` denotes.
fn next_digits(digits: Vec<u8>) -> (next: Vec<u8>)
    requires
        canonical_digits(digits@),
    ensures
        canonical_digits(next@),
        digits_value(next@) == digits_value(digits@) + 1,
    decreases digits@.len(),
{
    let mut rest = digits;
    match rest.pop() {
        None => {
            rest.push(1);
            assert(rest@.drop_last() =~= Seq::<u8>::empty());
            assert(digits_value(rest@.drop_last()) == 0);
            rest
        },
        Some(last) => {
            assert(rest@ =~= digits@.drop_last());
            assert(last == digits@.last());
            if last < 9 {
                let ghost front = rest@;
                rest.push(last + 1);
                assert(rest@.drop_last() =~= front);
                rest
            } else {
                let mut carried = next_digits(rest);
                let ghost front = carried@;
                carried.push(0);
                assert(carried@.drop_last() =~= front);
                carried
            }
        },
    }
}

/// A supply of the names `t0`, `t1`, `t2`, ..., each handed out once.
#[derive(Debug)]
pub struct NameSupply {
    digits: Vec<u8>,
}

impl NameSupply {
    #[verifier::type_invariant]
    spec fn canonical(self) -> bool {
        canonical_digits(self.digits@)
    }

    /// How many names were handed out.
    pub closed spec fn count(&self) -> nat {
        digits_value(self.digits@)
    }

    /// The name with number `n` of the supply.
    pub open spec fn name(n: nat) -> Name {
        numbered('t', n)
    }

    /// A supply that has handed out nothing.
    pub fn new() -> (supply: Self)
        ensures
            supply.count() == 0,
    {
        NameSupply { digits: Vec::new() }
    }

    /// Hands out the next name.
    pub fn fresh(&mut self) -> (name: String)
        ensures
            name@ == Self::name(old(self).count()),
            final(self).count() == old(self).count() + 1,
    {
        proof {
            use_type_invariant(&*self);
            reveal_strlit("t");
            reveal_strlit("t0");
        }
        let mut digits: Vec<u8> = Vec::new();
        std::mem::swap(&mut digits, &mut self.digits);
        let mut name = if digits.len() == 0 {
            String::from_str("t0")
        } else {
            String::from_str("t")
        };
        proof {
            if digits@.len() == 0 {
                assert(name@ =~= numbered('t', 0));
            } else {
                lemma_canonical_digits(digits@);
                assert(name@ =~= seq!['t'] + digit_chars(digits@).take(0));
            }
        }
        let mut i: usize = 0;
        while i < digits.len()
            invariant
                i <= digits.len(),
                canonical_digits(digits@),
                digits@.len() > 0 ==> name@ == seq!['t'] + digit_chars(digits@).take(i as int),
                digits@.len() == 0 ==> name@ == numbered('t', 0),
            decreases digits.len() - i,
        {
            name.append(digit_text(digits[i]));
            assert(name@ =~= seq!['t'] + digit_chars(digits@).take(i + 1));
            i = i + 1;
        }
        assert(digit_chars(digits@).take(digits@.len() as int) =~= digit_chars(digits@));
        self.digits = next_digits(digits);
        name
    }
}

} // verus!
