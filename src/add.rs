use vstd::prelude::*;
use crate::config::Config;
use crate::path::is_supported;
use crate::store::{added, aged, aged_scale, increment_weight, visit_fits, Epoch, Store};

verus! {

/// Add a new directory or increment its rank.
pub struct Add {
    /// The directory to record; the current directory where it is absent.
    pub path: Option<String>,
}

/// Why a visit was not recorded.
#[derive(Debug, PartialEq, Eq, Structural)]
pub enum AddError {
    /// The path is of a kind that the store cannot hold (none is, on UNIX).
    Unsupported,
    /// The visit does not fit in the store (`visit_fits`).
    Full,
}

impl Add {
    /// Records a visit of the resolved `path` at `now`, then ages the store.
    /// An excluded path is skipped without error. The visit raises the path's
    /// rank by at least `config.increment` (see `Store::add`); where it does
    /// not fit, nothing changes and `Full` comes back.
    pub fn record(store: &mut Store, path: String, now: Epoch, config: &Config, excluded: bool) -> (r: Result<(), AddError>)
        requires
            old(store).wf(),
        ensures
            final(store).wf(),
            excluded ==> r is Ok && *final(store) == *old(store),
            !excluded ==> (r is Ok <==> visit_fits(
                old(store)@,
                path@,
                config.increment,
                old(store).scale_num,
                old(store).scale_den,
            )),
            !excluded && r is Err ==> r == Err::<(), AddError>(AddError::Full) && *final(store) == *old(store),
            !excluded && r is Ok ==> ({
                let visited = added(
                    old(store)@,
                    path@,
                    now,
                    increment_weight(config.increment, old(store).scale_num, old(store).scale_den) as u64,
                );
                &&& final(store)@ == aged(visited, old(store).scale_num, old(store).scale_den, config.max_total)
                &&& (final(store).scale_num, final(store).scale_den) == aged_scale(
                    visited,
                    old(store).scale_num,
                    old(store).scale_den,
                    config.max_total,
                )
            }),
    {
        if excluded {
            return Ok(());
        }
        if !is_supported(path.as_str()) {
            return Err(AddError::Unsupported);
        }
        match store.add(path, now, config.increment) {
            Ok(()) => {
                store.age(config.max_total);
                Ok(())
            },
            Err(_) => Err(AddError::Full),
        }
    }
}

} // verus!
