use vstd::prelude::*;
use crate::errors::Error;
use crate::il::CFG;
use crate::il::model::CfgView;
use crate::streamer::proto::UtMsg;

verus! {

/// Builds the control-flow graph of a trace, parsing its messages in order.
///
/// Gives the error of the first message whose block split would add an edge that
/// is there already.
pub fn stream_to_cfg(msgs: &Vec<UtMsg>) -> (r: Result<CFG, Error>)
    requires
        msgs@.len() + crate::il::model::total_reads(crate::il::model::msg_views(msgs@)) + 2 < usize::MAX,
    ensures
        match r {
            Ok(cfg) => cfg.wf() && crate::il::model::parse_all(CfgView::initial(), crate::il::model::msg_views(msgs@))
                == Ok::<CfgView, Error>(cfg@),
            Err(e) => crate::il::model::parse_all(CfgView::initial(), crate::il::model::msg_views(msgs@))
                == Err::<CfgView, Error>(e),
        },
{
    let ghost views = crate::il::model::msg_views(msgs@);
    let mut cfg = CFG::new();
    let mut i: usize = 0;
    while i < msgs.len()
        invariant
            i <= msgs@.len(),
            views == crate::il::model::msg_views(msgs@),
            msgs@.len() + crate::il::model::total_reads(views) + 2 < usize::MAX,
            cfg.wf(),
            cfg@.wf(),
            crate::il::model::parse_all(CfgView::initial(), views.take(i as int)) == Ok::<CfgView, Error>(cfg@),
            cfg@.insn_block.len() <= i + crate::il::model::total_reads(views.take(i as int)),
            cfg@.blocks.len() <= 1 + i,
        decreases msgs@.len() - i,
    {
        let msg = &msgs[i];
        proof {
            let t = views.take(i + 1);
            assert(t.drop_last() =~= views.take(i as int));
            assert(t.last() == crate::il::model::msg_view(*msg));
            crate::il::model::lemma_total_reads_prefix(views, i as int);
        }
        match cfg.check_msg(msg) {
            Err(e) => {
                proof {
                    crate::il::model::lemma_parse_all_err(CfgView::initial(), views, i + 1);
                }
                return Err(e);
            },
            Ok(()) => {},
        }
        proof {
            crate::il::model::lemma_parse_wf(cfg@, crate::il::model::msg_view(*msg));
        }
        cfg.parse_msg_ref(msg);
        i = i + 1;
    }
    proof {
        assert(views.take(msgs@.len() as int) =~= views);
    }
    Ok(cfg)
}

} // verus!
