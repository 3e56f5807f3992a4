//! Checking the links between the components of a configuration.
//!
//! Every link in a configuration names the unit it takes its data from.
//! Each link to a unit that the configuration doesn’t define is an error,
//! reported at the position of the link.

use vstd::prelude::*;
use crate::config::{mark_text, Marked};
use crate::text::push_str;

verus! {

/// The text of the error for a link at the position `mark` to the unit
/// `name` that doesn’t exist.
pub open spec fn unresolved_text(mark: Seq<char>, name: Seq<char>) -> Seq<char> {
    mark + ": unresolved link to unit '"@ + name + "'"@
}

/// The plain values of the units referenced by links: their names and the
/// texts of the positions of the links.
pub open spec fn referenced_view(units: Seq<(String, Vec<Marked<()>>)>) -> Seq<
    (Seq<char>, Seq<Seq<char>>),
> {
    units.map_values(
        |u: (String, Vec<Marked<()>>)|
            (
                u.0@,
                u.1@.map_values(|m: Marked<()>| mark_text(m.source_spec(), m.pos_spec())),
            ),
    )
}

/// The names of the defined units.
pub open spec fn names_view(names: Seq<String>) -> Seq<Seq<char>> {
    names.map_values(|n: String| n@)
}

/// The errors for the links to units that aren’t defined, in the order of
/// the units and then of their links.
pub open spec fn link_errors(
    referenced: Seq<(Seq<char>, Seq<Seq<char>>)>,
    defined: Seq<Seq<char>>,
) -> Seq<Seq<char>>
    decreases referenced.len(),
{
    if referenced.len() == 0 {
        Seq::empty()
    } else {
        let (name, marks) = referenced.last();
        link_errors(referenced.drop_last(), defined) + if defined.contains(name) {
            Seq::empty()
        } else {
            marks.map_values(|m: Seq<char>| unresolved_text(m, name))
        }
    }
}

/// Returns whether a name is among the names.
fn contains_name(names: &Vec<String>, name: &String) -> (res: bool)
    ensures
        res == names_view(names@).contains(name@),
{
    let mut i: usize = 0;
    while i < names.len()
        invariant
            i <= names@.len(),
            forall|j: int| 0 <= j < i ==> names@[j]@ != name@,
        decreases names@.len() - i,
    {
        if names[i] == *name {
            assert(names_view(names@)[i as int] == name@);
            return true;
        }
        i = i + 1;
    }
    proof {
        if names_view(names@).contains(name@) {
            let j = choose|j: int|
                0 <= j < names_view(names@).len() && names_view(names@)[j] == name@;
            assert(names@[j]@ == name@);
        }
    }
    false
}

/// Returns the errors for the links to units that aren’t defined.
///
/// The referenced units are given with the marks of the links to them;
/// the defined units by their names.
pub fn unresolved_links(referenced: &Vec<(String, Vec<Marked<()>>)>, defined: &Vec<String>) -> (res:
    Vec<String>)
    ensures
        res@.map_values(|e: String| e@) == link_errors(
            referenced_view(referenced@),
            names_view(defined@),
        ),
{
    let ghost refs = referenced_view(referenced@);
    let ghost names = names_view(defined@);
    let mut res: Vec<String> = Vec::new();
    let mut i: usize = 0;
    proof {
        assert(refs.take(0) =~= Seq::<(Seq<char>, Seq<Seq<char>>)>::empty());
        assert(res@.map_values(|e: String| e@) =~= Seq::<Seq<char>>::empty());
    }
    while i < referenced.len()
        invariant
            i <= referenced@.len(),
            refs == referenced_view(referenced@),
            names == names_view(defined@),
            res@.map_values(|e: String| e@) == link_errors(refs.take(i as int), names),
        decreases referenced@.len() - i,
    {
        let (name, marks) = &referenced[i];
        let ghost before = res@.map_values(|e: String| e@);
        let ghost mark_texts = refs[i as int].1;
        assert(refs[i as int].0 == name@);
        if !contains_name(defined, name) {
            let mut k: usize = 0;
            while k < marks.len()
                invariant
                    k <= marks@.len(),
                    mark_texts == marks@.map_values(
                        |m: Marked<()>| mark_text(m.source_spec(), m.pos_spec()),
                    ),
                    res@.map_values(|e: String| e@) == before + mark_texts.take(k as int).map_values(
                        |m: Seq<char>| unresolved_text(m, name@),
                    ),
                decreases marks@.len() - k,
            {
                let mut text = marks[k].format_mark();
                push_str(&mut text, ": unresolved link to unit '");
                push_str(&mut text, name.as_str());
                push_str(&mut text, "'");
                proof {
                    assert(text@ =~= unresolved_text(mark_texts[k as int], name@));
                }
                let ghost prev = res@;
                res.push(text);
                proof {
                    assert(res@.map_values(|e: String| e@) =~= prev.map_values(|e: String| e@).push(
                        text@,
                    ));
                    assert(mark_texts.take(k + 1).map_values(
                        |m: Seq<char>| unresolved_text(m, name@),
                    ) =~= mark_texts.take(k as int).map_values(
                        |m: Seq<char>| unresolved_text(m, name@),
                    ).push(unresolved_text(mark_texts[k as int], name@)));
                }
                k = k + 1;
            }
            proof {
                assert(mark_texts.take(marks@.len() as int) =~= mark_texts);
            }
        }
        proof {
            let t = refs.take(i + 1);
            assert(t.drop_last() =~= refs.take(i as int));
            assert(t.last() == refs[i as int]);
            if names.contains(name@) {
                assert(res@.map_values(|e: String| e@) =~= link_errors(t, names));
            } else {
                assert(res@.map_values(|e: String| e@) =~= link_errors(t, names));
            }
        }
        i = i + 1;
    }
    proof {
        assert(refs.take(referenced@.len() as int) =~= refs);
    }
    res
}

} // verus!
