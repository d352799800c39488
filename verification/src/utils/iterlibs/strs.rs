use std::fmt::Display;
use vstd::prelude::*;
use vstd::std_specs::iter::IteratorSpec;
use vstd::string::to_string_from_display_ensures;

verus! {

/// The texts `parts` in a row, with `sep` between one and the next.
pub open spec fn join_spec(parts: Seq<Seq<char>>, sep: Seq<char>) -> Seq<char>
    decreases parts.len(),
{
    if parts.len() == 0 {
        Seq::empty()
    } else if parts.len() == 1 {
        parts[0]
    } else {
        join_spec(parts.drop_last(), sep) + sep + parts.last()
    }
}

/// Appends `s` to `res` with `String::push_str`.
#[verifier::external_body]
fn push_str(res: &mut String, s: &str)
    ensures
        final(res)@ == old(res)@ + s@,
{
    res.push_str(s);
}

/// Joining what an iterator yields to one text.
pub trait StrUtilIter: Iterator + Sized {
    /// The items that the iterator yields, each as `to_string` writes it, with
    /// `sep` between one and the next.
    fn join(self, sep: &str) -> (res: String) where Self::Item: Display
        requires
            self.obeys_prophetic_iter_laws(),
            self.decrease() is Some,
        ensures
            exists|parts: Seq<String>|
                {
                    &&& parts.len() == self.remaining().len()
                    &&& forall|i: int|
                        0 <= i < parts.len() ==> to_string_from_display_ensures::<Self::Item>(
                            &self.remaining()[i],
                            #[trigger] parts[i],
                        )
                    &&& res@ == join_spec(parts.map_values(|p: String| p@), sep@)
                },
    ;
}

impl<I> StrUtilIter for I where I: Iterator {
    fn join(self, sep: &str) -> (res: String) where Self::Item: Display {
        let ghost all = self.remaining();
        let mut iter = self;
        match iter.next() {
            None => {
                let res = String::new();
                proof {
                    let parts = Seq::<String>::empty();
                    assert(parts.map_values(|p: String| p@) =~= Seq::<Seq<char>>::empty());
                    assert(res@ =~= join_spec(parts.map_values(|p: String| p@), sep@));
                }
                res
            },
            Some(first) => {
                let mut res = first.to_string();
                let ghost mut parts = Seq::<String>::empty().push(res);
                proof {
                    assert(parts.map_values(|p: String| p@) =~= seq![res@]);
                    assert(all =~= seq![first] + iter.remaining());
                }
                loop
                    invariant
                        iter.obeys_prophetic_iter_laws(),
                        iter.decrease() is Some,
                        parts.len() >= 1,
                        all.subrange(0, parts.len() as int) + iter.remaining() == all,
                        parts.len() + iter.remaining().len() == all.len(),
                        forall|i: int|
                            0 <= i < parts.len() ==> to_string_from_display_ensures::<I::Item>(
                                &all[i],
                                #[trigger] parts[i],
                            ),
                        res@ == join_spec(parts.map_values(|p: String| p@), sep@),
                    ensures
                        parts.len() == all.len(),
                        forall|i: int|
                            0 <= i < parts.len() ==> to_string_from_display_ensures::<I::Item>(
                                &all[i],
                                #[trigger] parts[i],
                            ),
                        res@ == join_spec(parts.map_values(|p: String| p@), sep@),
                    decreases iter.decrease()->0,
                {
                    let ghost before = iter.remaining();
                    let ghost done = parts.len() as int;
                    match iter.next() {
                        None => {
                            break ;
                        },
                        Some(item) => {
                            let text = item.to_string();
                            push_str(&mut res, sep);
                            push_str(&mut res, text.as_str());
                            proof {
                                let old_parts = parts;
                                parts = parts.push(text);
                                assert(all[done] == before[0]) by {
                                    assert((all.subrange(0, done) + before)[done] == before[0]);
                                }
                                assert(all.subrange(0, done + 1) + iter.remaining() =~= all.subrange(
                                    0,
                                    done,
                                ) + before);
                                let views = parts.map_values(|p: String| p@);
                                assert(views.drop_last() =~= old_parts.map_values(|p: String| p@));
                                assert(views.last() == text@);
                            }
                        },
                    }
                }
                res
            },
        }
    }
}

} // verus!
