//! Command-line argument recognition: flags are matched against the
//! option table, quoted values are attached to the preceding flag, and
//! the recognized commands are ordered by their fixed priority.

use vstd::prelude::*;
use vstd::seq_lib::group_to_multiset_ensures;
use crate::errors::InvalidArgument;
use crate::text::str_eq;

verus! {

/// One recognized command-line flag, its attached value if one was
/// given, and its execution priority.
pub struct Arguments {
    pub cmd: String,
    pub value: Option<String>,
    pub order: usize,
}

pub ghost struct ArgumentsView {
    pub cmd: Seq<char>,
    pub value: Option<Seq<char>>,
    pub order: nat,
}

impl View for Arguments {
    type V = ArgumentsView;

    open spec fn view(&self) -> ArgumentsView {
        ArgumentsView {
            cmd: self.cmd@,
            value: match &self.value {
                Some(v) => Some(v@),
                None => None,
            },
            order: self.order as nat,
        }
    }
}

impl DeepView for Arguments {
    type V = ArgumentsView;

    open spec fn deep_view(&self) -> ArgumentsView {
        self.view()
    }
}

/// Execution priority of a flag, by its tag without the leading dash;
/// `None` for a flag the table does not know.
pub open spec fn arg_order(tag: Seq<char>) -> Option<nat> {
    if tag == "h"@ {
        Some(1nat)
    } else if tag == "v"@ {
        Some(2nat)
    } else if tag == "a"@ {
        Some(3nat)
    } else if tag == "m"@ {
        Some(4nat)
    } else if tag == "l"@ {
        Some(5nat)
    } else if tag == "p"@ {
        Some(6nat)
    } else if tag == "f"@ {
        Some(7nat)
    } else {
        None
    }
}

fn order_of(tag: &str) -> (r: Option<usize>)
    ensures
        r is Some <==> arg_order(tag@) is Some,
        r matches Some(o) ==> arg_order(tag@) == Some(o as nat),
{
    if str_eq(tag, "h") {
        Some(1)
    } else if str_eq(tag, "v") {
        Some(2)
    } else if str_eq(tag, "a") {
        Some(3)
    } else if str_eq(tag, "m") {
        Some(4)
    } else if str_eq(tag, "l") {
        Some(5)
    } else if str_eq(tag, "p") {
        Some(6)
    } else if str_eq(tag, "f") {
        Some(7)
    } else {
        None
    }
}

/// The argument closes a quoted value.
pub open spec fn ends_with_quote(a: Seq<char>) -> bool {
    a.len() > 0 && a.last() == '"'
}

/// The quoted text gathered from `args[i]` on: each argument up to (and
/// excluding) the first that ends with a quote, each followed by one
/// space.
pub open spec fn spec_gather(args: Seq<Seq<char>>, i: int) -> Seq<char>
    decreases args.len() - i,
{
    if i < 0 || i >= args.len() || ends_with_quote(args[i]) {
        Seq::<char>::empty()
    } else {
        args[i] + seq![' '] + spec_gather(args, i + 1)
    }
}

/// Parse `args[i..]` given the commands recognized so far. A dashed
/// argument is looked up in the option table (unknown flags are
/// dropped); a quote-opening argument gathers a value for the most
/// recent command, and fails when there is none; anything else fails.
pub open spec fn spec_parse_from(
    args: Seq<Seq<char>>,
    i: int,
    acc: Seq<ArgumentsView>,
) -> Result<Seq<ArgumentsView>, ()>
    decreases args.len() - i,
{
    if i < 0 || i >= args.len() {
        Ok(acc)
    } else {
        let a = args[i];
        if a[0] == '-' {
            match arg_order(a.skip(1)) {
                Some(o) => spec_parse_from(
                    args,
                    i + 1,
                    acc.push(ArgumentsView { cmd: a, value: None, order: o }),
                ),
                None => spec_parse_from(args, i + 1, acc),
            }
        } else if a[0] == '"' {
            if acc.len() == 0 {
                Err(())
            } else {
                spec_parse_from(
                    args,
                    i + 1,
                    acc.drop_last().push(
                        ArgumentsView { value: Some(spec_gather(args, i)), ..acc.last() },
                    ),
                )
            }
        } else {
            Err(())
        }
    }
}

/// Parse a full argument vector (the leading program name is skipped).
pub open spec fn spec_parse_args(args: Seq<Seq<char>>) -> Result<Seq<ArgumentsView>, ()> {
    spec_parse_from(args, 1, Seq::<ArgumentsView>::empty())
}

/// The parsed commands when parsing succeeds.
pub open spec fn spec_parse_ok(args: Seq<Seq<char>>) -> Seq<ArgumentsView> {
    match spec_parse_args(args) {
        Ok(s) => s,
        Err(_) => Seq::<ArgumentsView>::empty(),
    }
}

/// The commands stand in priority order.
pub open spec fn sorted_by_order(s: Seq<ArgumentsView>) -> bool {
    forall|i: int, j: int| 0 <= i < j < s.len() ==> s[i].order <= s[j].order
}

/// Index of the first element with the least priority.
pub open spec fn first_min_index(s: Seq<ArgumentsView>) -> int
    decreases s.len(),
{
    if s.len() <= 1 {
        0
    } else {
        let r = 1 + first_min_index(s.drop_first());
        if s[0].order <= s[r].order {
            0
        } else {
            r
        }
    }
}

pub proof fn lemma_first_min_index(s: Seq<ArgumentsView>)
    requires
        s.len() > 0,
    ensures
        0 <= first_min_index(s) < s.len(),
        forall|q: int| 0 <= q < s.len() ==> s[first_min_index(s)].order <= #[trigger] s[q].order,
        forall|q: int|
            0 <= q < first_min_index(s) ==> #[trigger] s[q].order > s[first_min_index(s)].order,
    decreases s.len(),
{
    if s.len() > 1 {
        let t = s.drop_first();
        lemma_first_min_index(t);
        let r = 1 + first_min_index(t);
        assert(forall|q: int| 1 <= q < s.len() ==> t[q - 1] == #[trigger] s[q]);
        if s[0].order <= s[r].order {
            assert forall|q: int| 0 <= q < s.len() implies s[first_min_index(s)].order
                <= #[trigger] s[q].order by {
                if q >= 1 {
                    assert(t[r - 1].order <= t[q - 1].order);
                }
            }
        } else {
            assert forall|q: int| 0 <= q < s.len() implies s[first_min_index(s)].order
                <= #[trigger] s[q].order by {
                if q >= 1 {
                    assert(t[r - 1].order <= t[q - 1].order);
                }
            }
            assert forall|q: int|
                0 <= q < first_min_index(s) implies #[trigger] s[q].order > s[first_min_index(
                s,
            )].order by {
                if q >= 1 {
                    assert(t[q - 1].order > t[r - 1].order);
                }
            }
        }
    }
}

/// The priority-sorted rearrangement: the earliest least-priority
/// command comes out first, so commands of equal priority keep their
/// relative order — the sort is stable.
pub open spec fn spec_sort_by_order(s: Seq<ArgumentsView>) -> Seq<ArgumentsView>
    decreases s.len(),
{
    if s.len() == 0 {
        s
    } else {
        let m = first_min_index(s);
        // the guard keeps the recursion well-founded; the index is
        // always in range (lemma_first_min_index)
        if 0 <= m < s.len() {
            seq![s[m]] + spec_sort_by_order(s.remove(m))
        } else {
            s
        }
    }
}

fn ends_quote(a: &String) -> (r: bool)
    ensures
        r == ends_with_quote(a@),
{
    let len = a.as_str().unicode_len();
    if len == 0 {
        false
    } else {
        a.as_str().get_char(len - 1) == '"'
    }
}

/// Reorder the recognized commands by priority: the stable sort of the
/// input — a sorted permutation in which equal priorities keep their
/// relative order.
fn sort_by_order(v: Vec<Arguments>) -> (r: Vec<Arguments>)
    ensures
        r.deep_view() == spec_sort_by_order(v.deep_view()),
        r.deep_view().to_multiset() == v.deep_view().to_multiset(),
        sorted_by_order(r.deep_view()),
        r.len() == v.len(),
{
    broadcast use group_to_multiset_ensures;

    let ghost orig = v.deep_view();
    let mut rest = v;
    let mut out: Vec<Arguments> = Vec::new();
    proof {
        assert(out.deep_view() =~= Seq::<ArgumentsView>::empty());
        assert(rest.deep_view().to_multiset().add(out.deep_view().to_multiset()) =~= orig.to_multiset());
        assert(out.deep_view() + spec_sort_by_order(rest.deep_view()) =~= spec_sort_by_order(
            orig,
        ));
    }
    while rest.len() > 0
        invariant
            rest.deep_view().to_multiset().add(out.deep_view().to_multiset())
                == orig.to_multiset(),
            sorted_by_order(out.deep_view()),
            forall|p: int, q: int|
                0 <= p < out.deep_view().len() && 0 <= q < rest.deep_view().len()
                    ==> #[trigger] out.deep_view()[p].order <= #[trigger] rest.deep_view()[q].order,
            rest.len() + out.len() == orig.len(),
            spec_sort_by_order(orig) == out.deep_view() + spec_sort_by_order(rest.deep_view()),
        decreases rest.len(),
    {
        // find the index of the first minimal remaining priority
        let mut m: usize = 0;
        let mut j: usize = 1;
        while j < rest.len()
            invariant
                m < j <= rest.len() || (j <= rest.len() && m == 0),
                m < rest.len(),
                rest.len() > 0,
                forall|q: int|
                    0 <= q < j ==> rest.deep_view()[m as int].order
                        <= #[trigger] rest.deep_view()[q].order,
                forall|q: int|
                    0 <= q < m ==> #[trigger] rest.deep_view()[q].order > rest.deep_view()[
                        m as int
                    ].order,
            decreases rest.len() - j,
        {
            if rest[j].order < rest[m].order {
                m = j;
            }
            j += 1;
        }
        let ghost rpre = rest.deep_view();
        let ghost opre = out.deep_view();
        proof {
            lemma_first_min_index(rpre);
            let f = first_min_index(rpre);
            if f < m {
                assert(rpre[f].order > rpre[m as int].order);
                assert(rpre[f].order <= rpre[m as int].order);
            }
            if f > m {
                assert(rpre[m as int].order > rpre[f].order);
                assert(rpre[m as int].order <= rpre[f].order);
            }
            assert(m as int == f);
        }
        let x = rest.remove(m);
        let ghost xv = x@;
        proof {
            rpre.to_multiset_ensures();
            assert(xv == rpre[m as int]);
            assert(rest.deep_view() =~= rpre.remove(m as int));
            assert(rpre.remove(m as int).to_multiset() =~= rpre.to_multiset().remove(xv));
            assert(rpre.to_multiset().count(xv) > 0) by {
                assert(rpre[m as int] == xv);
                assert(rpre.contains(xv));
            }
        }
        out.push(x);
        proof {
            opre.to_multiset_ensures();
            assert(out.deep_view() =~= opre.push(xv));
            assert(opre.push(xv).to_multiset() =~= opre.to_multiset().insert(xv));
            assert(rest.deep_view().to_multiset().add(out.deep_view().to_multiset())
                =~= orig.to_multiset()) by {
                assert(rest.deep_view().to_multiset() =~= rpre.to_multiset().remove(xv));
                assert(out.deep_view().to_multiset() =~= opre.to_multiset().insert(xv));
                assert(rpre.to_multiset().remove(xv).add(opre.to_multiset().insert(xv))
                    =~= rpre.to_multiset().add(opre.to_multiset()));
            }
            assert forall|p: int, q: int|
                0 <= p < out.deep_view().len() && 0 <= q < rest.deep_view().len()
                    implies #[trigger] out.deep_view()[p].order
                    <= #[trigger] rest.deep_view()[q].order by {
                if p < opre.len() {
                    assert(out.deep_view()[p] == opre[p]);
                } else {
                    assert(out.deep_view()[p] == xv);
                }
                if q < m {
                    assert(rest.deep_view()[q] == rpre[q]);
                } else {
                    assert(rest.deep_view()[q] == rpre[q + 1]);
                }
            }
            assert(sorted_by_order(out.deep_view())) by {
                assert forall|p: int, q: int|
                    0 <= p < q < out.deep_view().len() implies out.deep_view()[p].order
                        <= out.deep_view()[q].order by {
                    if q < opre.len() {
                    } else {
                        assert(out.deep_view()[q] == xv);
                        assert(opre[p].order <= rpre[m as int].order);
                    }
                }
            }
            assert(spec_sort_by_order(rpre) == seq![rpre[m as int]] + spec_sort_by_order(
                rpre.remove(m as int),
            ));
            assert(spec_sort_by_order(orig) =~= out.deep_view() + spec_sort_by_order(
                rest.deep_view(),
            )) by {
                assert(opre + (seq![xv] + spec_sort_by_order(rest.deep_view())) =~= opre.push(
                    xv,
                ) + spec_sort_by_order(rest.deep_view()));
            }
        }
    }
    proof {
        assert(rest.deep_view().to_multiset() =~= Seq::<ArgumentsView>::empty().to_multiset());
        assert(Seq::<ArgumentsView>::empty().to_multiset().add(out.deep_view().to_multiset())
            =~= out.deep_view().to_multiset());
        assert(spec_sort_by_order(rest.deep_view()) =~= Seq::<ArgumentsView>::empty());
        assert(out.deep_view() + Seq::<ArgumentsView>::empty() =~= out.deep_view());
    }
    out
}

/// Recognize the command-line arguments after the program name and
/// return the commands to run, in priority order: the stable sort by
/// priority of the commands the argument list denotes — a sorted
/// permutation in which commands of equal priority keep their relative
/// order. Fails with `InvalidArgument` exactly when an argument neither
/// starts with a dash nor opens a quoted value for a preceding command.
pub fn process_arguments(args: Vec<String>) -> (r: Result<Vec<Arguments>, InvalidArgument>)
    requires
        forall|i: int| 1 <= i < args.deep_view().len() ==> #[trigger] args.deep_view()[i].len() > 0,
    ensures
        r is Ok <==> spec_parse_args(args.deep_view()) is Ok,
        r matches Ok(v) ==> v.deep_view() == spec_sort_by_order(spec_parse_ok(args.deep_view()))
            && v.deep_view().to_multiset() == spec_parse_ok(args.deep_view()).to_multiset()
            && sorted_by_order(v.deep_view()),
{
    let ghost ad = args.deep_view();
    let mut acc: Vec<Arguments> = Vec::new();
    let mut i: usize = 1;
    proof {
        assert(acc.deep_view() =~= Seq::<ArgumentsView>::empty());
    }
    while i < args.len()
        invariant
            1 <= i,
            ad == args.deep_view(),
            ad.len() == args.len(),
            forall|q: int| 1 <= q < ad.len() ==> #[trigger] ad[q].len() > 0,
            spec_parse_args(ad) == spec_parse_from(ad, i as int, acc.deep_view()),
        decreases args.len() - i,
    {
        let ghost apre = acc.deep_view();
        proof {
            assert(args.deep_view()[i as int] == args@[i as int]@);
        }
        let a = &args[i];
        let alen = a.as_str().unicode_len();
        let c = a.as_str().get_char(0);
        if c == '-' {
            let tag = a.as_str().substring_char(1, alen);
            proof {
                assert(tag@ =~= ad[i as int].skip(1));
            }
            match order_of(tag) {
                Some(o) => {
                    let arg = Arguments {
                        cmd: String::from_str(a.as_str()),
                        value: None,
                        order: o,
                    };
                    let ghost argv = arg@;
                    acc.push(arg);
                    proof {
                        assert(acc.deep_view() =~= apre.push(argv));
                    }
                }
                None => {}
            }
        } else if c == '"' {
            let mut prompt = String::new();
            let mut j = i;
            proof {
                assert(prompt@ + spec_gather(ad, j as int) =~= spec_gather(ad, i as int));
            }
            while j < args.len() && !ends_quote(&args[j])
                invariant
                    i <= j,
                    ad == args.deep_view(),
                    ad.len() == args.len(),
                    prompt@ + spec_gather(ad, j as int) == spec_gather(ad, i as int),
                decreases args.len() - j,
            {
                let ghost ppre = prompt@;
                proof {
                    assert(args.deep_view()[j as int] == args@[j as int]@);
                }
                prompt.append(args[j].as_str());
                prompt.append(" ");
                proof {
                    reveal_strlit(" ");
                    assert(" "@ =~= seq![' ']);
                    assert(prompt@ =~= ppre + ad[j as int] + seq![' ']);
                    assert(spec_gather(ad, j as int) == ad[j as int] + seq![' '] + spec_gather(
                        ad,
                        j as int + 1,
                    ));
                    assert(prompt@ + spec_gather(ad, j as int + 1) =~= ppre + spec_gather(
                        ad,
                        j as int,
                    ));
                }
                j += 1;
            }
            proof {
                assert(spec_gather(ad, j as int) =~= Seq::<char>::empty());
                assert(prompt@ + Seq::<char>::empty() =~= prompt@);
                assert(prompt@ == spec_gather(ad, i as int));
            }
            match acc.pop() {
                Some(mut arg) => {
                    let ghost lastv = arg@;
                    proof {
                        assert(apre.len() > 0);
                        assert(lastv == apre.last());
                        assert(acc.deep_view() =~= apre.drop_last());
                    }
                    arg.value = Some(prompt);
                    let ghost updated = arg@;
                    acc.push(arg);
                    proof {
                        assert(updated == (ArgumentsView {
                            value: Some(spec_gather(ad, i as int)),
                            ..apre.last()
                        }));
                        assert(acc.deep_view() =~= apre.drop_last().push(updated));
                    }
                }
                None => {
                    proof {
                        assert(apre.len() == 0);
                        assert(spec_parse_from(ad, i as int, apre) is Err);
                    }
                    return Err(InvalidArgument);
                }
            }
        } else {
            proof {
                assert(ad[i as int][0] != '-' && ad[i as int][0] != '"');
                assert(spec_parse_from(ad, i as int, apre) is Err);
            }
            return Err(InvalidArgument);
        }
        i += 1;
    }
    proof {
        assert(spec_parse_from(ad, i as int, acc.deep_view()) == Ok::<_, ()>(acc.deep_view()));
    }
    let sorted = sort_by_order(acc);
    Ok(sorted)
}

} // verus!
