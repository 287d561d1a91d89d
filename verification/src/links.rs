//! Broken-link reporting: the link-liveness collaborator resolves each
//! link and says whether it is alive; the selection of which links to
//! report is verified here.

use vstd::prelude::*;

verus! {

/// Where a link points.
#[derive(Clone, Copy, PartialEq, Eq, Structural, Debug)]
pub enum LinkKind {
    Local,
    Remote,
}

/// One link found in a file, with the liveness verdict the collaborator
/// reached for it.
pub struct LinkInfo {
    pub text: String,
    pub kind: LinkKind,
    pub alive: bool,
}

/// The mathematical value of a `LinkInfo`.
pub ghost struct LinkV {
    pub text: Seq<char>,
    pub kind: LinkKind,
    pub alive: bool,
}

impl View for LinkInfo {
    type V = LinkV;

    open spec fn view(&self) -> LinkV {
        LinkV { text: self.text@, kind: self.kind, alive: self.alive }
    }
}

impl DeepView for LinkInfo {
    type V = LinkV;

    open spec fn deep_view(&self) -> LinkV {
        self.view()
    }
}

/// A link the report keeps: it is dead, and when only local links are
/// asked for, it is local.
pub open spec fn spec_is_broken(l: LinkV, local_only: bool) -> bool {
    !l.alive && (!local_only || l.kind == LinkKind::Local)
}

/// The links to report, in input order.
pub open spec fn spec_broken(links: Seq<LinkV>, local_only: bool) -> Seq<LinkV>
    decreases links.len(),
{
    if links.len() == 0 {
        Seq::empty()
    } else {
        let rest = spec_broken(links.drop_last(), local_only);
        if spec_is_broken(links.last(), local_only) {
            rest.push(links.last())
        } else {
            rest
        }
    }
}

/// Select the links of one file worth reporting: the dead ones,
/// restricted to local links when `local_only` is set.
pub fn broken_links(links: Vec<LinkInfo>, local_only: bool) -> (out: Vec<LinkInfo>)
    ensures
        out.deep_view() == spec_broken(links.deep_view(), local_only),
{
    let ghost lv = links.deep_view();
    let mut links = links;
    let mut out: Vec<LinkInfo> = Vec::new();
    let ghost i: int = 0;
    let mut i = Ghost(i);
    proof {
        assert(lv.take(0) =~= Seq::<LinkV>::empty());
        assert(out.deep_view() =~= spec_broken(lv.take(0), local_only));
        assert(links.deep_view() =~= lv.skip(0));
    }
    while links.len() > 0
        invariant
            0 <= i@ <= lv.len(),
            links.deep_view() == lv.skip(i@),
            out.deep_view() == spec_broken(lv.take(i@), local_only),
        decreases lv.len() - i@,
    {
        let ghost pre = links.deep_view();
        proof {
            assert(pre.len() == links@.len());
            assert(i@ < lv.len());
        }
        let l = links.remove(0);
        proof {
            assert(pre[0] == lv.skip(i@)[0]);
            assert(lv.subrange(i@, lv.len() as int)[0] == lv[i@ + 0]);
            assert(l@ == lv[i@]);
            assert(links.deep_view() =~= pre.drop_first());
            assert(pre.drop_first() =~= lv.skip(i@ + 1));
            assert(lv.take(i@ + 1).drop_last() =~= lv.take(i@));
            assert(lv.take(i@ + 1).last() == lv[i@]);
        }
        let keep = !l.alive && (!local_only || matches!(l.kind, LinkKind::Local));
        if keep {
            let ghost pre_out = out.deep_view();
            out.push(l);
            proof {
                assert(out.deep_view() =~= pre_out.push(lv[i@]));
                assert(out.deep_view() =~= spec_broken(lv.take(i@ + 1), local_only));
            }
        } else {
            proof {
                assert(out.deep_view() =~= spec_broken(lv.take(i@ + 1), local_only));
            }
        }
        proof {
            i@ = i@ + 1;
        }
    }
    proof {
        assert(lv.take(lv.len() as int) =~= lv);
    }
    out
}

} // verus!
