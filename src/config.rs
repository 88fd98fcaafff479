use vstd::prelude::*;

verus! {

/// One configured wallet; its identity is `proxy_address`.
#[derive(Debug, Clone)]
pub struct WalletConfig {
    pub wallet_id: String,
    pub name: String,
    pub proxy_address: String,
}

/// The wallets of `candidates` whose address is non-empty, in order.
pub open spec fn configured(candidates: Seq<WalletConfig>) -> Seq<WalletConfig>
    decreases candidates.len(),
{
    if candidates.len() == 0 {
        seq![]
    } else {
        let rest = configured(candidates.drop_last());
        if candidates.last().proxy_address@.len() > 0 {
            rest.push(candidates.last())
        } else {
            rest
        }
    }
}

/// Keeps the candidate wallets that carry a non-empty address; empty
/// entries are dropped silently rather than reported.
pub fn load_wallets(candidates: Vec<WalletConfig>) -> (r: Vec<WalletConfig>)
    ensures
        r@ == configured(candidates@),
{
    let mut r: Vec<WalletConfig> = Vec::new();
    let mut i: usize = 0;
    while i < candidates.len()
        invariant
            i <= candidates.len(),
            r@ == configured(candidates@.subrange(0, i as int)),
        decreases candidates.len() - i,
    {
        let w = &candidates[i];
        let keep = !w.proxy_address.as_str().is_empty();
        proof {
            let prefix = candidates@.subrange(0, i as int + 1);
            assert(prefix.drop_last() =~= candidates@.subrange(0, i as int));
        }
        if keep {
            r.push(WalletConfig {
                wallet_id: w.wallet_id.clone(),
                name: w.name.clone(),
                proxy_address: w.proxy_address.clone(),
            });
        }
        i = i + 1;
    }
    assert(candidates@.subrange(0, candidates.len() as int) =~= candidates@);
    r
}

} // verus!
