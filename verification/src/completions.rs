//! Which commands of Typst are offered beside the program's own.

use vstd::prelude::*;

use crate::text::{same, texts};

verus! {

broadcast use vstd::string::group_string_axioms;

/// A name is one of those of some command.
pub open spec fn is_taken(native: Seq<Vec<String>>, name: Seq<char>) -> bool {
    exists|i: int| 0 <= i < native.len() && texts((#[trigger] native[i])@).contains(name)
}

/// None of a command's names, aliases included, is one of the program's own.
pub open spec fn is_offered(native: Seq<Vec<String>>, names: Seq<Seq<char>>) -> bool {
    forall|k: int| 0 <= k < names.len() ==> !is_taken(native, #[trigger] names[k])
}

/// The places of the commands that are offered, in order.
pub open spec fn offered(native: Seq<Vec<String>>, commands: Seq<Vec<String>>) -> Seq<usize>
    decreases commands.len(),
{
    if commands.len() == 0 {
        Seq::empty()
    } else {
        let front = offered(native, commands.drop_last());
        if is_offered(native, texts(commands.last()@)) {
            front.push((commands.len() - 1) as usize)
        } else {
            front
        }
    }
}

/// Whether a name is one of those of some command.
fn taken(native: &Vec<Vec<String>>, name: &str) -> (r: bool)
    ensures
        r == is_taken(native@, name@),
{
    let mut i: usize = 0;
    while i < native.len()
        invariant
            i <= native@.len(),
            forall|j: int| 0 <= j < i ==> !texts((#[trigger] native@[j])@).contains(name@),
        decreases native@.len() - i,
    {
        let names = &native[i];
        let mut k: usize = 0;
        while k < names.len()
            invariant
                k <= names@.len(),
                i < native@.len(),
                *names == native@[i as int],
                forall|j: int| 0 <= j < k ==> (#[trigger] names@[j])@ != name@,
            decreases names@.len() - k,
        {
            if same(names[k].as_str(), name) {
                proof {
                    assert(texts(names@)[k as int] == name@);
                    assert(texts(native@[i as int]@).contains(name@));
                }
                return true;
            }
            k = k + 1;
        }
        proof {
            if texts(names@).contains(name@) {
                let j = choose|j: int| 0 <= j < texts(names@).len() && texts(names@)[j] == name@;
                assert(names@[j]@ == name@);
            }
        }
        i = i + 1;
    }
    false
}

/// The places of the commands of Typst that are offered: those of which no name or alias is one of
/// the program's own.
pub fn command(native: &Vec<Vec<String>>, commands: &Vec<Vec<String>>) -> (r: Vec<usize>)
    ensures
        r@ == offered(native@, commands@),
{
    let mut r: Vec<usize> = Vec::new();
    let mut i: usize = 0;
    assert(commands@.take(0) =~= Seq::<Vec<String>>::empty());
    while i < commands.len()
        invariant
            i <= commands@.len(),
            r@ == offered(native@, commands@.take(i as int)),
        decreases commands@.len() - i,
    {
        let names = &commands[i];
        proof {
            assert(commands@.take(i + 1).drop_last() =~= commands@.take(i as int));
            assert(commands@.take(i + 1).last() == *names);
        }
        let mut free = true;
        let mut k: usize = 0;
        while k < names.len() && free
            invariant
                k <= names@.len(),
                free ==> forall|j: int| 0 <= j < k ==> !is_taken(native@, #[trigger] texts(names@)[j]),
                !free ==> !is_offered(native@, texts(names@)),
            decreases names@.len() - k,
        {
            if taken(native, names[k].as_str()) {
                free = false;
                proof {
                    assert(texts(names@)[k as int] == names@[k as int]@);
                }
            }
            k = k + 1;
        }
        if free {
            assert(is_offered(native@, texts(names@)));
            r.push(i);
        }
        i = i + 1;
    }
    assert(commands@.take(i as int) =~= commands@);
    r
}

} // verus!
