use vstd::prelude::*;
use vstd::string::to_string_from_display_ensures;
use std::fmt::Display;
use std::ops::Rem;
use vstd::std_specs::cmp::PartialEqSpec;
use vstd::std_specs::convert::FromSpec;
use vstd::std_specs::ops::RemSpec;

verus! {

/// A test on values of `T` whose behaviour is described by two spec functions:
/// `accepts` is its precondition, `answers` relates an input to a possible result.
pub trait Predicate<T> {
    spec fn accepts(&self, x: T) -> bool;

    spec fn answers(&self, x: T, r: bool) -> bool;

    fn test(&self, x: T) -> (r: bool)
        requires
            self.accepts(x),
        ensures
            self.answers(x, r),
    ;
}

impl<T, F: Fn(T) -> bool> Predicate<T> for F {
    open spec fn accepts(&self, x: T) -> bool {
        call_requires(*self, (x,))
    }

    open spec fn answers(&self, x: T, r: bool) -> bool {
        call_ensures(*self, (x,), r)
    }

    fn test(&self, x: T) -> (r: bool) {
        (self)(x)
    }
}

/// A rule: values on which `predicate` holds are replaced by `substitute`.
#[verifier::reject_recursive_types(T)]
pub struct Matcher<T> {
    pub predicate: Box<dyn Predicate<T>>,
    pub substitute: String,
}

impl<T> Matcher<T> {
    /// A rule from a closure that can be asked about every value.
    pub fn new<F: Fn(T) -> bool + 'static>(predicate: F, substitute: &str) -> (m: Self)
        requires
            forall|x: T| call_requires(predicate, (x,)),
        ensures
            m.substitute@ == substitute@,
            forall|x: T| m.predicate.accepts(x),
            forall|x: T, r: bool| m.predicate.answers(x, r) <==> call_ensures(predicate, (x,), r),
    {
        Matcher { predicate: Box::new(predicate), substitute: substitute.to_owned() }
    }
}

/// The substitutes of the rules whose flag is set, concatenated in rule order.
pub open spec fn joined_substitutes(subs: Seq<Seq<char>>, flags: Seq<bool>) -> Seq<char>
    decreases flags.len(),
{
    if flags.len() == 0 {
        Seq::empty()
    } else {
        let prev = joined_substitutes(subs, flags.drop_last());
        if flags.last() {
            prev + subs[flags.len() - 1]
        } else {
            prev
        }
    }
}

/// The substitutes of the rules `ms`, in order.
pub open spec fn substitutes_of<T>(ms: Seq<Matcher<T>>) -> Seq<Seq<char>> {
    ms.map_values(|m: Matcher<T>| m.substitute@)
}

/// `s` is what the rules `ms` turn `x` into, when their predicates answered `flags`:
/// the joined substitutes of the rules that hold, or `x` written out if none holds.
pub open spec fn rendered_as<T: Display>(ms: Seq<Matcher<T>>, x: T, flags: Seq<bool>, s: String) -> bool {
    &&& flags.len() == ms.len()
    &&& forall|k: int| 0 <= k < ms.len() ==> ms[k].predicate.answers(x, #[trigger] flags[k])
    &&& if exists|k: int| 0 <= k < flags.len() && #[trigger] flags[k] {
        s@ == joined_substitutes(substitutes_of(ms), flags)
    } else {
        to_string_from_display_ensures::<T>(&x, s)
    }
}

/// Some answers of the predicates of `ms` on `x` make the rules turn `x` into `s`.
pub open spec fn renders<T: Display>(ms: Seq<Matcher<T>>, x: T, s: String) -> bool {
    exists|flags: Seq<bool>| rendered_as(ms, x, flags, s)
}

proof fn lemma_joined_none_set(subs: Seq<Seq<char>>, flags: Seq<bool>)
    requires
        forall|k: int| 0 <= k < flags.len() ==> !flags[k],
    ensures
        joined_substitutes(subs, flags) == Seq::<char>::empty(),
    decreases flags.len(),
{
    if flags.len() > 0 {
        lemma_joined_none_set(subs, flags.drop_last());
    }
}

/// An ordered set of rules applied to each value of a sequence.
#[verifier::reject_recursive_types(T)]
pub struct Fizzy<T> {
    matchers: Vec<Matcher<T>>,
}

impl<T> Fizzy<T> {
    /// The rules, in the order in which they were added.
    pub closed spec fn rules(&self) -> Seq<Matcher<T>> {
        self.matchers@
    }

    /// Every rule's predicate can be asked about every value.
    pub open spec fn wf(&self) -> bool {
        forall|k: int, x: T| 0 <= k < self.rules().len() ==> #[trigger] self.rules()[k].predicate.accepts(x)
    }

    /// No rules at all: every value is written out as it is.
    pub fn new() -> (f: Self)
        ensures
            f.rules() == Seq::<Matcher<T>>::empty(),
            f.wf(),
    {
        Fizzy { matchers: Vec::new() }
    }

    /// The same rules with `matcher` added last.
    pub fn add_matcher(self, matcher: Matcher<T>) -> (f: Self)
        ensures
            f.rules() == self.rules().push(matcher),
            self.wf() && (forall|x: T| matcher.predicate.accepts(x)) ==> f.wf(),
    {
        let mut matchers = self.matchers;
        matchers.push(matcher);
        let f = Fizzy { matchers };
        proof {
            if self.wf() && (forall|x: T| matcher.predicate.accepts(x)) {
                assert forall|k: int, x: T| 0 <= k < f.rules().len() implies #[trigger] f.rules()[k].predicate.accepts(x) by {
                    if k < self.rules().len() {
                        assert(f.rules()[k] == self.rules()[k]);
                    }
                }
            }
        }
        f
    }
}

impl<T: Display + Copy> Fizzy<T> {
    fn render(&self, x: T) -> (s: String)
        requires
            self.wf(),
        ensures
            renders(self.rules(), x, s),
    {
        let ghost ms = self.rules();
        let ghost mut flags: Seq<bool> = Seq::empty();
        let mut word: Option<String> = None;
        let n = self.matchers.len();
        let mut j: usize = 0;
        while j < n
            invariant
                n == ms.len(),
                ms == self.rules(),
                self.wf(),
                j <= n,
                flags.len() == j,
                forall|k: int| 0 <= k < j ==> ms[k].predicate.answers(x, #[trigger] flags[k]),
                word is Some <==> exists|k: int| 0 <= k < j && #[trigger] flags[k],
                word is Some ==> word->0@ == joined_substitutes(substitutes_of(ms), flags),
            decreases n - j,
        {
            let m = &self.matchers[j];
            let hit = m.predicate.test(x);
            let ghost prev = flags;
            proof {
                flags = flags.push(hit);
                assert(flags.drop_last() == prev);
                assert(flags[j as int] == hit);
                assert(substitutes_of(ms)[j as int] == m.substitute@);
                if word is None {
                    lemma_joined_none_set(substitutes_of(ms), prev);
                }
            }
            if hit {
                word = match word {
                    Some(w) => Some(w.concat(m.substitute.as_str())),
                    None => Some(m.substitute.clone()),
                };
            }
            j += 1;
        }
        let s = match word {
            Some(w) => w,
            None => x.to_string(),
        };
        assert(rendered_as(ms, x, flags, s));
        assert(renders(ms, x, s));
        s
    }

    /// Applies the rules to each value of `items`, in order.
    pub fn apply(self, items: &[T]) -> (out: Vec<String>)
        requires
            self.wf(),
        ensures
            out.len() == items.len(),
            forall|i: int| 0 <= i < items.len() ==> renders(self.rules(), items[i], #[trigger] out[i]),
    {
        let mut out: Vec<String> = Vec::new();
        let mut i: usize = 0;
        while i < items.len()
            invariant
                self.wf(),
                i <= items.len(),
                out.len() == i,
                forall|k: int| 0 <= k < i ==> renders(self.rules(), items[k], #[trigger] out[k]),
            decreases items.len() - i,
        {
            let s = self.render(items[i]);
            out.push(s);
            i += 1;
        }
        out
    }
}

/// `x` is a multiple of `d`, where `T`'s remainder and equality follow their specifications.
pub open spec fn multiple_of<T: Rem<Output = T> + From<u8> + PartialEq>(x: T, d: u8) -> bool {
    x.rem_spec(T::from_spec(d)).eq_spec(&T::from_spec(0u8))
}

/// `T`'s conversion from `u8`, remainder and equality follow their specifications.
pub open spec fn lawful<T: Rem<Output = T> + From<u8> + PartialEq>() -> bool {
    T::obeys_from_spec() && T::obeys_rem_spec() && T::obeys_eq_spec()
}

/// The usual rules: multiples of three become "fizz", multiples of five "buzz".
pub fn fizz_buzz<T: Copy + Rem<Output = T> + From<u8> + PartialEq + 'static>() -> (f: Fizzy<T>)
    requires
        T::obeys_from_spec(),
        forall|x: T| x.rem_req(T::from_spec(3u8)),
        forall|x: T| x.rem_req(T::from_spec(5u8)),
    ensures
        f.wf(),
        f.rules().len() == 2,
        f.rules()[0].substitute@ == seq!['f', 'i', 'z', 'z'],
        f.rules()[1].substitute@ == seq!['b', 'u', 'z', 'z'],
        lawful::<T>() ==> forall|x: T, r: bool|
            #[trigger] f.rules()[0].predicate.answers(x, r) ==> r == multiple_of(x, 3u8),
        lawful::<T>() ==> forall|x: T, r: bool|
            #[trigger] f.rules()[1].predicate.answers(x, r) ==> r == multiple_of(x, 5u8),
{
    let zero = T::from(0u8);
    let three = T::from(3u8);
    let five = T::from(5u8);
    let fizz = move |x: T| -> (r: bool)
        requires
            x.rem_req(three),
        ensures
            lawful::<T>() ==> r == multiple_of(x, 3u8),
        { x % three == zero };
    let buzz = move |x: T| -> (r: bool)
        requires
            x.rem_req(five),
        ensures
            lawful::<T>() ==> r == multiple_of(x, 5u8),
        { x % five == zero };
    proof {
        reveal_strlit("fizz");
        reveal_strlit("buzz");
    }
    Fizzy::new().add_matcher(Matcher::new(fizz, "fizz")).add_matcher(Matcher::new(buzz, "buzz"))
}

} // verus!
