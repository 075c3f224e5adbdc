//! The database's settings, with their defaults.

use vstd::prelude::*;
use crate::constants;

verus! {

/// The settings of a database.
#[derive(Debug, PartialEq, Eq, Structural, Clone, Copy)]
pub struct NldbConfig {
    pub max_memtable_nodes: u64,
    pub max_memtable_size: u64,
    pub compaction_rate: u64,
    pub cache_size: u64,
    pub compaction_queue_size: u64,
    pub memtable_flush_queue_size: u64,
}

/// The defaults.
pub open spec fn default_config() -> NldbConfig {
    NldbConfig {
        max_memtable_nodes: constants::DEFAULT_MAX_MEMTABLE_NODES,
        max_memtable_size: constants::DEFAULT_MAX_MEMTABLE_SIZE,
        compaction_rate: constants::DEFAULT_COMPACTION_RATE,
        cache_size: constants::DEFAULT_CACHE_SIZE,
        compaction_queue_size: constants::DEFAULT_COMPACTION_QUEUE_SIZE,
        memtable_flush_queue_size: constants::DEFAULT_MEMTABLE_FLUSH_QUEUE,
    }
}

impl Default for NldbConfig {
    fn default() -> (r: NldbConfig)
        ensures
            r == default_config(),
    {
        NldbConfig {
            max_memtable_nodes: constants::DEFAULT_MAX_MEMTABLE_NODES,
            max_memtable_size: constants::DEFAULT_MAX_MEMTABLE_SIZE,
            compaction_rate: constants::DEFAULT_COMPACTION_RATE,
            cache_size: constants::DEFAULT_CACHE_SIZE,
            compaction_queue_size: constants::DEFAULT_COMPACTION_QUEUE_SIZE,
            memtable_flush_queue_size: constants::DEFAULT_MEMTABLE_FLUSH_QUEUE,
        }
    }
}

/// The settings that can be given by name.
#[derive(Debug, PartialEq, Eq, Structural, Clone, Copy)]
pub enum Setting {
    MaxMemtableNodes,
    MaxMemtableSize,
    CompactionRate,
    CacheSize,
    CompactionQueueSize,
    MemtableFlushQueueSize,
}

/// The name of a setting, after the `--` that precedes it.
pub open spec fn setting_name(s: Setting) -> Seq<u8> {
    match s {
        Setting::MaxMemtableNodes => seq![109u8, 97u8, 120u8, 95u8, 109u8, 101u8, 109u8, 116u8, 97u8, 98u8, 108u8, 101u8, 95u8, 110u8, 111u8, 100u8, 101u8, 115u8],
        Setting::MaxMemtableSize => seq![109u8, 97u8, 120u8, 95u8, 109u8, 101u8, 109u8, 116u8, 97u8, 98u8, 108u8, 101u8, 95u8, 115u8, 105u8, 122u8, 101u8],
        Setting::CompactionRate => seq![99u8, 111u8, 109u8, 112u8, 97u8, 99u8, 116u8, 105u8, 111u8, 110u8, 95u8, 114u8, 97u8, 116u8, 101u8],
        Setting::CacheSize => seq![99u8, 97u8, 99u8, 104u8, 101u8, 95u8, 115u8, 105u8, 122u8, 101u8],
        Setting::CompactionQueueSize => seq![99u8, 111u8, 109u8, 112u8, 97u8, 99u8, 116u8, 105u8, 111u8, 110u8, 95u8, 113u8, 117u8, 101u8, 117u8, 101u8, 95u8, 115u8, 105u8, 122u8, 101u8],
        Setting::MemtableFlushQueueSize => seq![109u8, 101u8, 109u8, 116u8, 97u8, 98u8, 108u8, 101u8, 95u8, 102u8, 108u8, 117u8, 115u8, 104u8, 95u8, 113u8, 117u8, 101u8, 117u8, 101u8, 95u8, 115u8, 105u8, 122u8, 101u8],
    }
}

/// The command-line spelling of a setting's name, after the `--`.
pub open spec fn setting_flag(s: Setting) -> Seq<u8> {
    match s {
        Setting::MaxMemtableNodes => seq![109u8, 97u8, 120u8, 95u8, 109u8, 101u8, 109u8, 116u8, 97u8, 98u8, 108u8, 101u8, 45u8, 110u8, 111u8, 100u8, 101u8, 115u8],
        Setting::MaxMemtableSize => seq![109u8, 97u8, 120u8, 95u8, 109u8, 101u8, 109u8, 116u8, 97u8, 98u8, 108u8, 101u8, 45u8, 115u8, 105u8, 122u8, 101u8],
        Setting::CompactionRate => seq![99u8, 111u8, 109u8, 112u8, 97u8, 99u8, 116u8, 105u8, 111u8, 110u8, 45u8, 114u8, 97u8, 116u8, 101u8],
        Setting::CacheSize => seq![99u8, 97u8, 99u8, 104u8, 101u8, 45u8, 115u8, 105u8, 122u8, 101u8],
        Setting::CompactionQueueSize => seq![99u8, 111u8, 109u8, 112u8, 97u8, 99u8, 116u8, 105u8, 111u8, 110u8, 45u8, 113u8, 117u8, 101u8, 117u8, 101u8, 45u8, 115u8, 105u8, 122u8, 101u8],
        Setting::MemtableFlushQueueSize => seq![109u8, 101u8, 109u8, 116u8, 97u8, 98u8, 108u8, 101u8, 45u8, 102u8, 108u8, 117u8, 115u8, 104u8, 45u8, 113u8, 117u8, 101u8, 117u8, 101u8, 95u8, 115u8, 105u8, 122u8, 101u8],
    }
}

/// A parameter's name, after its `--`, names `s`: by the setting's name or by
/// its command-line spelling.
pub open spec fn names_setting(name: Seq<u8>, s: Setting) -> bool {
    name == setting_name(s) || name == setting_flag(s)
}

/// The setting a parameter names: `--` and the setting's name or its
/// command-line spelling.
pub open spec fn setting_of_param(param: Seq<u8>) -> Option<Setting> {
    if param.len() >= 2 && param[0] == 45 && param[1] == 45 {
        let name = param.subrange(2, param.len() as int);
        if names_setting(name, Setting::MaxMemtableNodes) {
            Some(Setting::MaxMemtableNodes)
        } else if names_setting(name, Setting::MaxMemtableSize) {
            Some(Setting::MaxMemtableSize)
        } else if names_setting(name, Setting::CompactionRate) {
            Some(Setting::CompactionRate)
        } else if names_setting(name, Setting::CacheSize) {
            Some(Setting::CacheSize)
        } else if names_setting(name, Setting::CompactionQueueSize) {
            Some(Setting::CompactionQueueSize)
        } else if names_setting(name, Setting::MemtableFlushQueueSize) {
            Some(Setting::MemtableFlushQueueSize)
        } else {
            None
        }
    } else {
        None
    }
}

fn name_is(param: &[u8], name: &[u8]) -> (r: bool)
    requires
        param@.len() >= 2,
    ensures
        r == (param@.subrange(2, param@.len() as int) == name@),
{
    if param.len() - 2 != name.len() {
        return false;
    }
    let plen = param.len();
    let mut i: usize = 0;
    while i < name.len()
        invariant
            plen == param@.len(),
            param@.len() - 2 == name@.len(),
            i <= name@.len(),
            forall|j: int| 0 <= j < i ==> param@[j + 2] == name@[j],
        decreases name.len() - i,
    {
        if param[i + 2] != name[i] {
            assert(param@.subrange(2, param@.len() as int)[i as int] != name@[i as int]);
            return false;
        }
        i = i + 1;
    }
    assert(param@.subrange(2, param@.len() as int) =~= name@);
    true
}

/// The setting a parameter names, if any.
pub fn setting_of(param: &[u8]) -> (r: Option<Setting>)
    ensures
        r == setting_of_param(param@),
{
    if param.len() < 2 || param[0] != 45u8 || param[1] != 45u8 {
        return None;
    }
    let n: [u8; 18] = [109u8, 97u8, 120u8, 95u8, 109u8, 101u8, 109u8, 116u8, 97u8, 98u8, 108u8, 101u8, 95u8, 110u8, 111u8, 100u8, 101u8, 115u8];
    assert(n@ =~= seq![109u8, 97u8, 120u8, 95u8, 109u8, 101u8, 109u8, 116u8, 97u8, 98u8, 108u8, 101u8, 95u8, 110u8, 111u8, 100u8, 101u8, 115u8]);
    if name_is(param, &n) {
        return Some(Setting::MaxMemtableNodes);
    }
    let n: [u8; 18] = [109u8, 97u8, 120u8, 95u8, 109u8, 101u8, 109u8, 116u8, 97u8, 98u8, 108u8, 101u8, 45u8, 110u8, 111u8, 100u8, 101u8, 115u8];
    assert(n@ =~= seq![109u8, 97u8, 120u8, 95u8, 109u8, 101u8, 109u8, 116u8, 97u8, 98u8, 108u8, 101u8, 45u8, 110u8, 111u8, 100u8, 101u8, 115u8]);
    if name_is(param, &n) {
        return Some(Setting::MaxMemtableNodes);
    }
    let n: [u8; 17] = [109u8, 97u8, 120u8, 95u8, 109u8, 101u8, 109u8, 116u8, 97u8, 98u8, 108u8, 101u8, 95u8, 115u8, 105u8, 122u8, 101u8];
    assert(n@ =~= seq![109u8, 97u8, 120u8, 95u8, 109u8, 101u8, 109u8, 116u8, 97u8, 98u8, 108u8, 101u8, 95u8, 115u8, 105u8, 122u8, 101u8]);
    if name_is(param, &n) {
        return Some(Setting::MaxMemtableSize);
    }
    let n: [u8; 17] = [109u8, 97u8, 120u8, 95u8, 109u8, 101u8, 109u8, 116u8, 97u8, 98u8, 108u8, 101u8, 45u8, 115u8, 105u8, 122u8, 101u8];
    assert(n@ =~= seq![109u8, 97u8, 120u8, 95u8, 109u8, 101u8, 109u8, 116u8, 97u8, 98u8, 108u8, 101u8, 45u8, 115u8, 105u8, 122u8, 101u8]);
    if name_is(param, &n) {
        return Some(Setting::MaxMemtableSize);
    }
    let n: [u8; 15] = [99u8, 111u8, 109u8, 112u8, 97u8, 99u8, 116u8, 105u8, 111u8, 110u8, 95u8, 114u8, 97u8, 116u8, 101u8];
    assert(n@ =~= seq![99u8, 111u8, 109u8, 112u8, 97u8, 99u8, 116u8, 105u8, 111u8, 110u8, 95u8, 114u8, 97u8, 116u8, 101u8]);
    if name_is(param, &n) {
        return Some(Setting::CompactionRate);
    }
    let n: [u8; 15] = [99u8, 111u8, 109u8, 112u8, 97u8, 99u8, 116u8, 105u8, 111u8, 110u8, 45u8, 114u8, 97u8, 116u8, 101u8];
    assert(n@ =~= seq![99u8, 111u8, 109u8, 112u8, 97u8, 99u8, 116u8, 105u8, 111u8, 110u8, 45u8, 114u8, 97u8, 116u8, 101u8]);
    if name_is(param, &n) {
        return Some(Setting::CompactionRate);
    }
    let n: [u8; 10] = [99u8, 97u8, 99u8, 104u8, 101u8, 95u8, 115u8, 105u8, 122u8, 101u8];
    assert(n@ =~= seq![99u8, 97u8, 99u8, 104u8, 101u8, 95u8, 115u8, 105u8, 122u8, 101u8]);
    if name_is(param, &n) {
        return Some(Setting::CacheSize);
    }
    let n: [u8; 10] = [99u8, 97u8, 99u8, 104u8, 101u8, 45u8, 115u8, 105u8, 122u8, 101u8];
    assert(n@ =~= seq![99u8, 97u8, 99u8, 104u8, 101u8, 45u8, 115u8, 105u8, 122u8, 101u8]);
    if name_is(param, &n) {
        return Some(Setting::CacheSize);
    }
    let n: [u8; 21] = [99u8, 111u8, 109u8, 112u8, 97u8, 99u8, 116u8, 105u8, 111u8, 110u8, 95u8, 113u8, 117u8, 101u8, 117u8, 101u8, 95u8, 115u8, 105u8, 122u8, 101u8];
    assert(n@ =~= seq![99u8, 111u8, 109u8, 112u8, 97u8, 99u8, 116u8, 105u8, 111u8, 110u8, 95u8, 113u8, 117u8, 101u8, 117u8, 101u8, 95u8, 115u8, 105u8, 122u8, 101u8]);
    if name_is(param, &n) {
        return Some(Setting::CompactionQueueSize);
    }
    let n: [u8; 21] = [99u8, 111u8, 109u8, 112u8, 97u8, 99u8, 116u8, 105u8, 111u8, 110u8, 45u8, 113u8, 117u8, 101u8, 117u8, 101u8, 45u8, 115u8, 105u8, 122u8, 101u8];
    assert(n@ =~= seq![99u8, 111u8, 109u8, 112u8, 97u8, 99u8, 116u8, 105u8, 111u8, 110u8, 45u8, 113u8, 117u8, 101u8, 117u8, 101u8, 45u8, 115u8, 105u8, 122u8, 101u8]);
    if name_is(param, &n) {
        return Some(Setting::CompactionQueueSize);
    }
    let n: [u8; 25] = [109u8, 101u8, 109u8, 116u8, 97u8, 98u8, 108u8, 101u8, 95u8, 102u8, 108u8, 117u8, 115u8, 104u8, 95u8, 113u8, 117u8, 101u8, 117u8, 101u8, 95u8, 115u8, 105u8, 122u8, 101u8];
    assert(n@ =~= seq![109u8, 101u8, 109u8, 116u8, 97u8, 98u8, 108u8, 101u8, 95u8, 102u8, 108u8, 117u8, 115u8, 104u8, 95u8, 113u8, 117u8, 101u8, 117u8, 101u8, 95u8, 115u8, 105u8, 122u8, 101u8]);
    if name_is(param, &n) {
        return Some(Setting::MemtableFlushQueueSize);
    }
    let n: [u8; 25] = [109u8, 101u8, 109u8, 116u8, 97u8, 98u8, 108u8, 101u8, 45u8, 102u8, 108u8, 117u8, 115u8, 104u8, 45u8, 113u8, 117u8, 101u8, 117u8, 101u8, 95u8, 115u8, 105u8, 122u8, 101u8];
    assert(n@ =~= seq![109u8, 101u8, 109u8, 116u8, 97u8, 98u8, 108u8, 101u8, 45u8, 102u8, 108u8, 117u8, 115u8, 104u8, 45u8, 113u8, 117u8, 101u8, 117u8, 101u8, 95u8, 115u8, 105u8, 122u8, 101u8]);
    if name_is(param, &n) {
        return Some(Setting::MemtableFlushQueueSize);
    }
    None
}

/// The value that the last parameter naming `s` gives it, if any.
pub open spec fn last_value(params: Seq<(Seq<u8>, u64)>, s: Setting) -> Option<u64>
    decreases params.len(),
{
    if params.len() == 0 {
        None
    } else if setting_of_param(params.last().0) == Some(s) {
        Some(params.last().1)
    } else {
        last_value(params.drop_last(), s)
    }
}

/// The settings from named parameters: each setting takes the value of the
/// last parameter that names it, or its default.
pub open spec fn config_from(params: Seq<(Seq<u8>, u64)>) -> NldbConfig {
    let d = default_config();
    NldbConfig {
        max_memtable_nodes: match last_value(params, Setting::MaxMemtableNodes) {
            Some(x) => x,
            None => d.max_memtable_nodes,
        },
        max_memtable_size: match last_value(params, Setting::MaxMemtableSize) {
            Some(x) => x,
            None => d.max_memtable_size,
        },
        compaction_rate: match last_value(params, Setting::CompactionRate) {
            Some(x) => x,
            None => d.compaction_rate,
        },
        cache_size: match last_value(params, Setting::CacheSize) {
            Some(x) => x,
            None => d.cache_size,
        },
        compaction_queue_size: match last_value(params, Setting::CompactionQueueSize) {
            Some(x) => x,
            None => d.compaction_queue_size,
        },
        memtable_flush_queue_size: match last_value(params, Setting::MemtableFlushQueueSize) {
            Some(x) => x,
            None => d.memtable_flush_queue_size,
        },
    }
}

impl NldbConfig {
    /// The settings from named parameters, each `--` and a setting's name
    /// with its value; unnamed settings keep their defaults.
    pub fn from_params(params: Vec<(Vec<u8>, u64)>) -> (r: NldbConfig)
        requires
            forall|i: int| 0 <= i < params@.len() ==> setting_of_param((#[trigger] params@[i]).0@) is Some,
        ensures
            r == config_from(params@.map_values(|p: (Vec<u8>, u64)| (p.0@, p.1))),
    {
        let ghost ps = params@.map_values(|p: (Vec<u8>, u64)| (p.0@, p.1));
        let mut c = NldbConfig::default();
        let mut i: usize = 0;
        while i < params.len()
            invariant
                i <= params@.len(),
                ps == params@.map_values(|p: (Vec<u8>, u64)| (p.0@, p.1)),
                forall|j: int| 0 <= j < params@.len() ==> setting_of_param((#[trigger] params@[j]).0@) is Some,
                c == config_from(ps.subrange(0, i as int)),
            decreases params.len() - i,
        {
            let val = params[i].1;
            let s = setting_of(params[i].0.as_slice());
            proof {
                assert(ps.subrange(0, i + 1).drop_last() =~= ps.subrange(0, i as int));
                assert(ps.subrange(0, i + 1).last() == ps[i as int]);
                assert(ps[i as int] == (params@[i as int].0@, params@[i as int].1));
            }
            match s {
                Some(Setting::MaxMemtableNodes) => {
                    c.max_memtable_nodes = val;
                },
                Some(Setting::MaxMemtableSize) => {
                    c.max_memtable_size = val;
                },
                Some(Setting::CompactionRate) => {
                    c.compaction_rate = val;
                },
                Some(Setting::CacheSize) => {
                    c.cache_size = val;
                },
                Some(Setting::CompactionQueueSize) => {
                    c.compaction_queue_size = val;
                },
                Some(Setting::MemtableFlushQueueSize) => {
                    c.memtable_flush_queue_size = val;
                },
                None => {},
            }
            i = i + 1;
        }
        proof {
            assert(ps.subrange(0, params@.len() as int) =~= ps);
        }
        c
    }
}

} // verus!
