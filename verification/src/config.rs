use vstd::prelude::*;
use crate::error::{RmqError, RmqResult};
use crate::keys::{index_of, lemma_index_of, lemma_index_of_at};
use crate::topic_partition::{copy_string, same_text};
use crate::numparse::{ParseFailure, parse_decimal, parse_decimal_spec, failure_text};
use vstd::string::StringExecFns;
use vstd::utf8::encode_utf8;
use vstd::string::StringSliceAdditionalSpecFns;

pub mod config_keys;

verus! {

/// Client configuration for RMemQueue.
///
/// Stores all configuration options as key-value pairs, used to initialise the broker,
/// producers and consumers. Each key occurs at most once.
#[derive(Clone, Debug)]
pub struct RmqClientConfig {
    conf_map: Vec<(String, String)>,
}

/// The keys of a sequence of entries, in order.
pub open spec fn entry_keys(s: Seq<(String, String)>) -> Seq<Seq<char>> {
    s.map_values(|e: (String, String)| e.0@)
}

/// The map from key to value that a sequence of entries describes (first entry wins).
pub open spec fn entries_map(s: Seq<(String, String)>) -> Map<Seq<char>, Seq<char>> {
    Map::new(
        |k: Seq<char>| index_of(entry_keys(s), k) is Some,
        |k: Seq<char>| s[index_of(entry_keys(s), k)->0].1@,
    )
}

impl View for RmqClientConfig {
    type V = Map<Seq<char>, Seq<char>>;

    closed spec fn view(&self) -> Map<Seq<char>, Seq<char>> {
        entries_map(self.conf_map@)
    }
}

/// Appending an entry adds its key with its value unless the key is already present.
proof fn lemma_entries_push(s: Seq<(String, String)>, e: (String, String))
    ensures
        entries_map(s.push(e)) == if entries_map(s).contains_key(e.0@) {
            entries_map(s)
        } else {
            entries_map(s).insert(e.0@, e.1@)
        },
{
    let ks = entry_keys(s);
    let p = s.push(e);
    assert(entry_keys(p) =~= ks.push(e.0@));
    assert forall|k: Seq<char>| #[trigger] index_of(entry_keys(p), k) == (if index_of(ks, k) is Some {
        index_of(ks, k)
    } else if e.0@ == k {
        Some(ks.len() as int)
    } else {
        None::<int>
    }) by {
        crate::keys::lemma_index_of_push(ks, e.0@, k);
        lemma_index_of(ks, k);
    }
    assert forall|k: Seq<char>| #[trigger] index_of(ks, k) is Some implies p[index_of(ks, k)->0] == s[index_of(ks, k)->0] by {
        lemma_index_of(ks, k);
    }
    if entries_map(s).contains_key(e.0@) {
        assert(entries_map(p) =~= entries_map(s));
    } else {
        assert(entries_map(p) =~= entries_map(s).insert(e.0@, e.1@));
    }
}

impl RmqClientConfig {
    /// Creates a new, empty configuration.
    pub fn new() -> (r: Self)
        ensures
            r@ == Map::<Seq<char>, Seq<char>>::empty(),
    {
        let r = Self { conf_map: Vec::new() };
        assert(r@ =~= Map::<Seq<char>, Seq<char>>::empty());
        r
    }

    /// The position of the entry for `key`, if present.
    fn position(&self, key: &str) -> (r: Option<usize>)
        ensures
            match r {
                Some(i) => index_of(entry_keys(self.conf_map@), key@) == Some(i as int)
                    && i < self.conf_map@.len()
                    && entry_keys(self.conf_map@)[i as int] == key@,
                None => index_of(entry_keys(self.conf_map@), key@) is None,
            },
    {
        let ghost keys = entry_keys(self.conf_map@);
        proof {
            lemma_index_of(keys, key@);
        }
        let mut i: usize = 0;
        while i < self.conf_map.len()
            invariant
                0 <= i <= self.conf_map.len(),
                keys == entry_keys(self.conf_map@),
                forall|j: int| 0 <= j < i ==> keys[j] != key@,
            decreases self.conf_map.len() - i,
        {
            if same_text(&self.conf_map[i].0, key) {
                proof {
                    lemma_index_of_at(keys, key@, i as int);
                }
                return Some(i);
            }
            i += 1;
        }
        None
    }

    /// Returns the value for the given configuration key, or `None` if the key does not exist.
    pub fn get(&self, key: &str) -> (r: Option<&str>)
        ensures
            match r {
                Some(v) => self@.contains_key(key@) && self@[key@] == v@,
                None => !self@.contains_key(key@),
            },
    {
        match self.position(key) {
            Some(i) => {
                let v = self.conf_map[i].1.as_str();
                Some(v)
            },
            None => None,
        }
    }

    /// Sets a configuration key-value pair, overwriting the existing value if the key is
    /// already present. Returns `&mut Self` for chained calls.
    pub fn set(&mut self, key: &str, value: &str) -> (r: &mut Self)
        ensures
            r@ == old(self)@.insert(key@, value@),
            *final(self) == *final(r),
    {
        let ghost old_map = self.conf_map@;
        let ghost old_keys = entry_keys(old_map);
        match self.position(key) {
            Some(i) => {
                self.conf_map.set(i, (key.to_owned(), value.to_owned()));
                proof {
                    let new_keys = entry_keys(self.conf_map@);
                    assert(new_keys =~= old_keys);
                    assert forall|k: Seq<char>| #[trigger] index_of(new_keys, k) is Some && k != key@
                        implies self.conf_map@[index_of(new_keys, k)->0] == old_map[index_of(new_keys, k)->0] by {
                        lemma_index_of(new_keys, k);
                    }
                    assert(entries_map(self.conf_map@) =~= entries_map(old_map).insert(key@, value@));
                }
            },
            None => {
                let e = (key.to_owned(), value.to_owned());
                proof {
                    lemma_entries_push(old_map, e);
                }
                self.conf_map.push(e);
            },
        }
        self
    }

    /// Removes a configuration key; does nothing if the key does not exist.
    /// Returns `&mut Self` for chained calls.
    pub fn remove(&mut self, key: &str) -> (r: &mut Self)
        ensures
            r@ == old(self)@.remove(key@),
            *final(self) == *final(r),
    {
        let ghost old_map = self.conf_map@;
        let mut kept: Vec<(String, String)> = Vec::new();
        let mut old: Vec<(String, String)> = Vec::new();
        std::mem::swap(&mut old, &mut self.conf_map);
        proof {
            assert(old@.take(0) =~= Seq::<(String, String)>::empty());
            assert(entries_map(kept@) =~= entries_map(old@.take(0)).remove(key@));
        }
        let mut i: usize = 0;
        while i < old.len()
            invariant
                0 <= i <= old@.len(),
                old@ == old_map,
                entries_map(kept@) == entries_map(old@.take(i as int)).remove(key@),
            decreases old@.len() - i,
        {
            let e = &old[i];
            let ghost pre = old@.take(i as int);
            proof {
                assert(old@.take(i + 1) =~= pre.push(old@[i as int]));
                lemma_entries_push(pre, old@[i as int]);
            }
            if !same_text(&e.0, key) {
                let c = (copy_string(&e.0), copy_string(&e.1));
                proof {
                    lemma_entries_push(kept@, c);
                    assert(entries_map(kept@.push(c)) =~= entries_map(old@.take(i + 1)).remove(key@));
                }
                kept.push(c);
            } else {
                proof {
                    assert(entries_map(kept@) =~= entries_map(old@.take(i + 1)).remove(key@));
                }
            }
            i += 1;
        }
        proof {
            assert(old@.take(i as int) =~= old@);
        }
        self.conf_map = kept;
        self
    }
}

impl RmqClientConfig {
    /// A copy of this configuration.
    pub fn copy_config(&self) -> (r: Self)
        ensures
            r@ == self@,
    {
        let mut m: Vec<(String, String)> = Vec::new();
        let mut i: usize = 0;
        while i < self.conf_map.len()
            invariant
                0 <= i <= self.conf_map@.len(),
                m@.len() == i,
                forall|j: int| 0 <= j < i ==> (#[trigger] m@[j]).0@ == self.conf_map@[j].0@ && m@[j].1@ == self.conf_map@[j].1@,
            decreases self.conf_map@.len() - i,
        {
            m.push((copy_string(&self.conf_map[i].0), copy_string(&self.conf_map[i].1)));
            i += 1;
        }
        let r = Self { conf_map: m };
        proof {
            assert(entry_keys(r.conf_map@) =~= entry_keys(self.conf_map@));
            assert forall|k: Seq<char>| #[trigger] index_of(entry_keys(self.conf_map@), k) is Some implies
                r.conf_map@[index_of(entry_keys(self.conf_map@), k)->0].1@ == self.conf_map@[index_of(entry_keys(self.conf_map@), k)->0].1@ by {
                lemma_index_of(entry_keys(self.conf_map@), k);
            }
            assert(r@ =~= self@);
        }
        r
    }
}

impl Default for RmqClientConfig {
    fn default() -> (r: Self)
        ensures
            r@ == Map::<Seq<char>, Seq<char>>::empty(),
    {
        Self::new()
    }
}

/// Trait for constructing a type from an [`RmqClientConfig`].
///
/// Types that implement this trait can parse themselves from a configuration object.
pub trait FromRmqConfig: Sized {
    /// Constructs an instance from the given configuration.
    ///
    /// Returns [`RmqError::InvalidConfig`] if required fields are missing or values are invalid.
    fn from_config(config: &RmqClientConfig) -> RmqResult<Self>;
}

/// The broker settings read from a client configuration.
#[derive(Clone, Debug)]
pub struct BrokerConfig {
    /// Unique identifier of the broker.
    pub broker_id: String,
    /// Number of partitions given to a topic created on first use.
    pub default_num_partitions: i32,
    /// Capacity (in messages) of each partition buffer; `0` means unbounded.
    pub buffer_capacity: usize,
    /// The retention policy name (informational).
    pub retention_policy: String,
    /// Time-based retention in milliseconds, if configured.
    pub retention_ms: Option<u64>,
    /// Capacity-based retention (message count), if configured.
    pub retention_capacity: Option<usize>,
    /// Consumer group session timeout in milliseconds.
    pub group_session_timeout_ms: u64,
}

/// The abstract content of a [`BrokerConfig`].
pub struct BrokerConfigView {
    pub broker_id: Seq<char>,
    pub default_num_partitions: int,
    pub buffer_capacity: int,
    pub retention_policy: Seq<char>,
    pub retention_ms: Option<int>,
    pub retention_capacity: Option<int>,
    pub group_session_timeout_ms: int,
}

impl BrokerConfig {
    /// The abstract content of these settings.
    pub open spec fn spec_view(&self) -> BrokerConfigView {
        BrokerConfigView {
            broker_id: self.broker_id@,
            default_num_partitions: self.default_num_partitions as int,
            buffer_capacity: self.buffer_capacity as int,
            retention_policy: self.retention_policy@,
            retention_ms: match self.retention_ms {
                Some(v) => Some(v as int),
                None => None,
            },
            retention_capacity: match self.retention_capacity {
                Some(v) => Some(v as int),
                None => None,
            },
            group_session_timeout_ms: self.group_session_timeout_ms as int,
        }
    }
}

/// The text of the error for a value of `key` that could not be read.
pub open spec fn invalid_value_text(key: Seq<char>, f: ParseFailure) -> Seq<char> {
    "Invalid "@ + key + ": "@ + failure_text(f)
}

/// The outcome of reading the optional numeric setting `key` within `[lo, hi]`:
/// absent, its value, or the text of the error.
pub open spec fn numeric_setting(cfg: Map<Seq<char>, Seq<char>>, key: Seq<char>, lo: int, hi: int) -> Result<
    Option<int>,
    Seq<char>,
> {
    if !cfg.contains_key(key) {
        Ok(None)
    } else {
        match parse_decimal_spec(encode_utf8(cfg[key]), lo, hi) {
            Ok(v) => Ok(Some(v)),
            Err(f) => Err(invalid_value_text(key, f)),
        }
    }
}

/// The broker settings that a configuration describes, or the text of the first error:
/// a missing broker id, or a numeric setting that cannot be read, in the order broker id,
/// partition count, buffer capacity, retention capacity, retention time, session timeout.
pub open spec fn broker_config_spec(cfg: Map<Seq<char>, Seq<char>>) -> Result<BrokerConfigView, Seq<char>> {
    if !cfg.contains_key(config_keys::BROKER_ID@) {
        Err(config_keys::BROKER_ID@ + " is required"@)
    } else {
        let np = numeric_setting(cfg, config_keys::NUM_PARTITIONS@, i32::MIN as int, i32::MAX as int);
        let bc = numeric_setting(cfg, config_keys::BUFFER_CAPACITY@, 0, usize::MAX as int);
        let rc = numeric_setting(cfg, config_keys::RETENTION_CAPACITY@, 0, usize::MAX as int);
        let rm = numeric_setting(cfg, config_keys::RETENTION_MS@, 0, u64::MAX as int);
        let gs = numeric_setting(cfg, config_keys::GROUP_SESSION_TIMEOUT@, 0, u64::MAX as int);
        if np is Err {
            Err(np->Err_0)
        } else if bc is Err {
            Err(bc->Err_0)
        } else if rc is Err {
            Err(rc->Err_0)
        } else if rm is Err {
            Err(rm->Err_0)
        } else if gs is Err {
            Err(gs->Err_0)
        } else {
            Ok(BrokerConfigView {
                broker_id: cfg[config_keys::BROKER_ID@],
                default_num_partitions: match np->Ok_0 { Some(v) => v, None => 1 },
                buffer_capacity: match bc->Ok_0 { Some(v) => v, None => 10000 },
                retention_policy: if cfg.contains_key(config_keys::RETENTION_POLICY@) {
                    cfg[config_keys::RETENTION_POLICY@]
                } else {
                    "none"@
                },
                retention_ms: rm->Ok_0,
                retention_capacity: rc->Ok_0,
                group_session_timeout_ms: match gs->Ok_0 { Some(v) => v, None => 30000 },
            })
        }
    }
}

/// Reads the optional numeric setting `key` within `[lo, hi]`.
fn read_setting(config: &RmqClientConfig, key: &str, lo: i128, hi: i128) -> (r: Result<Option<i128>, String>)
    requires
        lo <= 0 <= hi,
        -0x1_0000_0000_0000_0000 <= lo,
        hi <= 0x1_0000_0000_0000_0000,
    ensures
        match numeric_setting(config@, key@, lo as int, hi as int) {
            Ok(Some(v)) => r == Ok::<Option<i128>, String>(Some(v as i128)) && lo <= v <= hi,
            Ok(None) => r == Ok::<Option<i128>, String>(None),
            Err(m) => r matches Err(t) && t@ == m,
        },
{
    match config.get(key) {
        None => Ok(None),
        Some(s) => {
            proof {
                assert(s.spec_bytes() == encode_utf8(s@));
            }
            match parse_decimal(s, lo, hi) {
                Ok(v) => Ok(Some(v)),
                Err(f) => {
                    let mut t = "Invalid ".to_owned();
                    t.append(key);
                    t.append(": ");
                    t.append(f.text());
                    Err(t)
                },
            }
        },
    }
}

impl BrokerConfig {
    /// Reads the broker settings from a client configuration.
    ///
    /// `broker.id` is required; each numeric setting that is present must be a decimal
    /// number of its type. Absent settings take their defaults: one partition per topic,
    /// a buffer of 10000 messages, retention policy `"none"`, no retention limits, and a
    /// session timeout of 30000 ms. Fails with [`RmqError::InvalidConfig`] on the first
    /// setting that is missing or cannot be read.
    pub fn from_config(config: &RmqClientConfig) -> (r: RmqResult<Self>)
        ensures
            match broker_config_spec(config@) {
                Ok(v) => r matches Ok(c) && c.spec_view() == v,
                Err(m) => r matches Err(RmqError::InvalidConfig(t)) && t@ == m,
            },
    {
        let broker_id = match config.get(config_keys::BROKER_ID) {
            Some(s) => s.to_owned(),
            None => {
                let mut t = config_keys::BROKER_ID.to_owned();
                t.append(" is required");
                return Err(RmqError::InvalidConfig(t));
            },
        };
        let np = read_setting(config, config_keys::NUM_PARTITIONS, i32::MIN as i128, i32::MAX as i128);
        let bc = read_setting(config, config_keys::BUFFER_CAPACITY, 0, usize::MAX as i128);
        let retention_policy = match config.get(config_keys::RETENTION_POLICY) {
            Some(s) => s.to_owned(),
            None => "none".to_owned(),
        };
        let rc = read_setting(config, config_keys::RETENTION_CAPACITY, 0, usize::MAX as i128);
        let rm = read_setting(config, config_keys::RETENTION_MS, 0, u64::MAX as i128);
        let gs = read_setting(config, config_keys::GROUP_SESSION_TIMEOUT, 0, u64::MAX as i128);
        let default_num_partitions: i32 = match np {
            Err(t) => return Err(RmqError::InvalidConfig(t)),
            Ok(Some(v)) => v as i32,
            Ok(None) => 1,
        };
        let buffer_capacity: usize = match bc {
            Err(t) => return Err(RmqError::InvalidConfig(t)),
            Ok(Some(v)) => v as usize,
            Ok(None) => 10000,
        };
        let retention_capacity: Option<usize> = match rc {
            Err(t) => return Err(RmqError::InvalidConfig(t)),
            Ok(Some(v)) => Some(v as usize),
            Ok(None) => None,
        };
        let retention_ms: Option<u64> = match rm {
            Err(t) => return Err(RmqError::InvalidConfig(t)),
            Ok(Some(v)) => Some(v as u64),
            Ok(None) => None,
        };
        let group_session_timeout_ms: u64 = match gs {
            Err(t) => return Err(RmqError::InvalidConfig(t)),
            Ok(Some(v)) => v as u64,
            Ok(None) => 30000,
        };
        let r = BrokerConfig {
            broker_id,
            default_num_partitions,
            buffer_capacity,
            retention_policy,
            retention_ms,
            retention_capacity,
            group_session_timeout_ms,
        };
        proof {
            reveal_strlit("none");
        }
        Ok(r)
    }
}

} // verus!
