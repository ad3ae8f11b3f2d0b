//! The pages of a file, one below the other.

use super::collector::CollectorOutput;
use super::page;
use super::page::parse_page;
use super::page::PlanView;
use crate::error::Error;
use crate::error::ErrorView;
use crate::float::Float;
use crate::order;
use crate::pdf::file::FileView;
use crate::pdf::file::PdfFile;
use crate::pdf::object::ObjectId;
use crate::types::Page;
use vstd::prelude::*;

verus! {

/// What pages are ordered by: their numbers.
pub open spec fn page_keys(pages: Seq<(u32, ObjectId)>) -> Seq<order::Key> {
    pages.map_values(|page: (u32, ObjectId)| (page.0 as i64, 0i64))
}

/// The pages in the order of their numbers.
pub open spec fn in_order(pages: Seq<(u32, ObjectId)>) -> Seq<(u32, ObjectId)> {
    order::picked(pages, order::stable_order(page_keys(pages)))
}

/// How far below the top of the document the page after these begins: their heights,
/// added from the first one on.
pub open spec fn offset_after(plans: Seq<PlanView>) -> Float
    decreases plans.len(),
{
    if plans.len() == 0 {
        Float { bits: 0 }
    } else {
        offset_after(plans.drop_last()).plus(plans.last().frame.geom.height)
    }
}

/// What is known of the first `n` pages, up to the first one that cannot be read.
pub open spec fn plans(file: FileView, pages: Seq<(u32, ObjectId)>, n: nat) -> Result<
    Seq<PlanView>,
    ErrorView,
>
    decreases n,
{
    if n == 0 {
        Ok(Seq::empty())
    } else {
        match plans(file, pages, (n - 1) as nat) {
            Err(e) => Err(e),
            Ok(before) => match page::planned(
                file,
                pages[n - 1].0 as usize,
                pages[n - 1].1,
                offset_after(before),
            ) {
                Err(e) => Err(e),
                Ok(view) => Ok(before.push(view)),
            },
        }
    }
}

/// Every page begins where the one before it ends: each is placed below all those with
/// smaller numbers, and each is found under its number.
pub proof fn law_pages_follow(file: FileView, pages: Seq<(u32, ObjectId)>, n: nat)
    requires
        n <= pages.len(),
        plans(file, pages, n) is Ok,
    ensures
        plans(file, pages, n)->Ok_0.len() == n,
        forall|i: int|
            #![trigger plans(file, pages, n)->Ok_0[i]]
            0 <= i < n ==> {
                let views = plans(file, pages, n)->Ok_0;
                &&& views[i].page_number == pages[i].0 as usize
                &&& views[i].frame.geom.doctop_offset == offset_after(views.take(i))
            },
    decreases n,
{
    if n > 0 {
        law_pages_follow(file, pages, (n - 1) as nat);
        let before = plans(file, pages, (n - 1) as nat)->Ok_0;
        let views = plans(file, pages, n)->Ok_0;
        assert forall|i: int| #![trigger views[i]] 0 <= i < n implies {
            &&& views[i].page_number == pages[i].0 as usize
            &&& views[i].frame.geom.doctop_offset == offset_after(views.take(i))
        } by {
            assert(views.take(i) =~= before.take(i));
            if i == n - 1 {
                assert(before.take(i) =~= before);
            } else {
                assert(views[i] == before[i]);
            }
        }
    }
}

/// The first page begins at the top of the document, and each further one as far below the
/// one before it as that one is high.
pub proof fn law_pages_stand_below_each_other(
    file: FileView,
    pages: Seq<(u32, ObjectId)>,
    n: nat,
    i: int,
)
    requires
        n <= pages.len(),
        plans(file, pages, n) is Ok,
        0 <= i < n,
    ensures
        ({
            let views = plans(file, pages, n)->Ok_0;
            let geom = views[i].frame.geom;
            &&& i == 0 ==> geom.doctop_offset == (Float { bits: 0 })
            &&& i > 0 ==> geom.doctop_offset == views[i - 1].frame.geom.doctop_offset.plus(
                views[i - 1].frame.geom.height,
            )
        }),
{
    law_pages_follow(file, pages, n);
    let views = plans(file, pages, n)->Ok_0;
    assert(views[i].frame.geom.doctop_offset == offset_after(views.take(i)));
    if i > 0 {
        assert(views[i - 1].frame.geom.doctop_offset == offset_after(views.take(i - 1)));
        assert(views.take(i).drop_last() =~= views.take(i - 1));
        assert(views.take(i).last() == views[i - 1]);
    }
}

/// The pages come in the order of their numbers, all of them.
pub proof fn law_pages_ascend(pages: Seq<(u32, ObjectId)>)
    requires
        pages.len() <= usize::MAX,
    ensures
        in_order(pages).len() == pages.len(),
        forall|i: int, j: int|
            0 <= i < j < in_order(pages).len() ==> (#[trigger] in_order(pages)[i]).0 <= (
            #[trigger] in_order(pages)[j]).0,
        forall|k: int| 0 <= k < pages.len() ==> in_order(pages).contains(#[trigger] pages[k]),
{
    let keys = page_keys(pages);
    let p = order::stable_order(keys);
    order::law_stable_order_exists(keys);
    order::law_stable_order_lists_all(keys, p);
    assert forall|i: int, j: int| 0 <= i < j < in_order(pages).len() implies (#[trigger] in_order(
        pages,
    )[i]).0 <= (#[trigger] in_order(pages)[j]).0 by {
        assert(order::comes_before(keys, p[i], p[j]));
    }
    assert forall|k: int| 0 <= k < pages.len() implies in_order(pages).contains(
        #[trigger] pages[k],
    ) by {
        assert(p.contains(k as usize));
        let i = choose|i: int| 0 <= i < p.len() && p[i] == k as usize;
        assert(in_order(pages)[i] == pages[k]);
    }
}

proof fn lemma_plans_stopped(file: FileView, pages: Seq<(u32, ObjectId)>, k: nat, n: nat)
    requires
        k <= n,
        plans(file, pages, k) is Err,
    ensures
        plans(file, pages, n) == plans(file, pages, k),
    decreases n,
{
    if k < n {
        lemma_plans_stopped(file, pages, k, (n - 1) as nat);
    }
}

/// Reads the pages of a file in the order of their numbers, each one placed below those
/// before it. The first page that cannot be read ends the reading.
pub fn parse_pages<F: Fn(CollectorOutput, usize) -> Option<CollectorOutput>>(
    file: &PdfFile,
    pages: &Vec<(u32, ObjectId)>,
    extract: &F,
) -> (r: Result<Vec<Page>, Error>)
    requires
        forall|start: CollectorOutput, n: usize| #[trigger] call_requires(*extract, (start, n)),
    ensures
        match plans(file@, in_order(pages@), pages@.len()) {
            Ok(views) => r matches Ok(parsed) && parsed@.len() == views.len() && forall|i: int|
                0 <= i < parsed@.len() ==> page::made_with(*extract, views[i], #[trigger] parsed@[i]),
            Err(e) => r matches Err(error) && error@ == e,
        },
{
    let mut keys: Vec<order::Key> = Vec::new();
    for i in 0..pages.len()
        invariant
            keys@ == page_keys(pages@).take(i as int),
    {
        keys.push((pages[i].0 as i64, 0));
        assert(keys@ =~= page_keys(pages@).take(i + 1));
    }
    assert(keys@ =~= page_keys(pages@));
    let ordered: Vec<usize> = order::sort_order(&keys);
    let ghost sorted = in_order(pages@);
    let mut parsed: Vec<Page> = Vec::new();
    let mut doctop_offset: Float = Float { bits: 0 };
    for i in 0..ordered.len()
        invariant
            ordered@ == order::stable_order(page_keys(pages@)),
            order::is_stable_order(page_keys(pages@), ordered@),
            sorted == in_order(pages@),
            sorted.len() == pages@.len(),
            ordered@.len() == pages@.len(),
            forall|start: CollectorOutput, n: usize| #[trigger]
                call_requires(*extract, (start, n)),
            plans(file@, sorted, i as nat) is Ok,
            ({
                let views = plans(file@, sorted, i as nat)->Ok_0;
                &&& parsed@.len() == i
                &&& views.len() == i
                &&& doctop_offset == offset_after(views)
                &&& forall|j: int|
                    0 <= j < parsed@.len() ==> page::made_with(
                        *extract,
                        views[j],
                        #[trigger] parsed@[j],
                    )
            }),
    {
        let (page_number, page_id) = pages[ordered[i]];
        let ghost before = plans(file@, sorted, i as nat)->Ok_0;
        assert(sorted[i as int] == pages@[ordered@[i as int] as int]);
        match parse_page(file, page_number as usize, page_id, doctop_offset, extract) {
            Err(e) => {
                proof {
                    lemma_plans_stopped(file@, sorted, (i + 1) as nat, pages@.len());
                }
                return Err(e);
            },
            Ok(page) => {
                let ghost views = plans(file@, sorted, (i + 1) as nat)->Ok_0;
                assert(views.drop_last() =~= before);
                assert(page.height == views.last().frame.geom.height);
                doctop_offset = doctop_offset.add(page.height);
                parsed.push(page);
                assert forall|j: int| 0 <= j < parsed@.len() implies page::made_with(
                    *extract,
                    views[j],
                    #[trigger] parsed@[j],
                ) by {
                    if j < i {
                        assert(views[j] == before[j]);
                    }
                }
            },
        }
    }
    Ok(parsed)
}

} // verus!
