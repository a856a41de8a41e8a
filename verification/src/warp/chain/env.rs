//! Environments of named values at three levels, global, chain and block,
//! where a lookup falls back from a level to the ones around it.
use vstd::prelude::*;
use std::sync::Arc;
use crate::registry::{share, entry_views, find_latest, latest_map, lemma_without, remove_named, without};
use crate::text::{Sep, string_views, ascii_lower, chars_eq, chars_of, lower_ascii, owned, split_all, split_chars, string_of_all, views};
use vstd::string::StringExecFns;

verus! {

broadcast use vstd::std_specs::vec::group_vec_axioms;

/// The level an environment belongs to.
#[derive(Debug, PartialEq, Eq, Clone, Copy, Structural)]
pub enum EnvLevel {
    Global,
    Chain,
    Block,
}

/// A shared environment.
pub type EnvRef = Arc<Env>;

/// Named values at one level, with the environment a lookup falls back
/// to.
pub struct Env {
    level: EnvLevel,
    values: Vec<(String, String)>,
    parent: Option<EnvRef>,
}

/// Lemma: two entry lists with the same names and value texts give maps
/// with the same value texts.
proof fn lemma_latest_map_views(a: Seq<(String, String)>, b: Seq<(String, String)>)
    requires
        a.len() == b.len(),
        forall|j: int| 0 <= j < a.len() ==> (#[trigger] a[j]).0@ == b[j].0@ && a[j].1@ == b[j].1@,
    ensures
        latest_map(entry_views(a)).map_values(|v: String| v@) == latest_map(entry_views(b)).map_values(
            |v: String| v@,
        ),
        latest_map(entry_views(a)).dom() == latest_map(entry_views(b)).dom(),
    decreases a.len(),
{
    if a.len() > 0 {
        lemma_latest_map_views(a.drop_last(), b.drop_last());
        assert(entry_views(a).drop_last() =~= entry_views(a.drop_last()));
        assert(entry_views(b).drop_last() =~= entry_views(b.drop_last()));
        let ma = latest_map(entry_views(a.drop_last()));
        let mb = latest_map(entry_views(b.drop_last()));
        let n = a.len() - 1;
        assert(a[n].0@ == b[n].0@ && a[n].1@ == b[n].1@);
        assert(latest_map(entry_views(a)) == ma.insert(a[n].0@, a[n].1));
        assert(latest_map(entry_views(b)) == mb.insert(b[n].0@, b[n].1));
        assert(ma.map_values(|v: String| v@).dom() == ma.dom());
        assert(mb.map_values(|v: String| v@).dom() == mb.dom());
        assert forall|k: Seq<char>| #[trigger] ma.contains_key(k) implies ma[k]@ == mb[k]@ by {
            assert(ma.map_values(|v: String| v@)[k] == mb.map_values(|v: String| v@)[k]);
        }
        assert(latest_map(entry_views(a)).dom() =~= latest_map(entry_views(b)).dom());
        assert(latest_map(entry_views(a)).map_values(|v: String| v@) =~= latest_map(
            entry_views(b),
        ).map_values(|v: String| v@));
    } else {
        assert(latest_map(entry_views(a)).map_values(|v: String| v@) =~= latest_map(
            entry_views(b),
        ).map_values(|v: String| v@));
    }
}

/// Lemma: a lookup takes the environment's own value, or else asks its
/// parent.
pub proof fn lemma_lookup(e: Env, key: Seq<char>)
    ensures
        e.lookup(key) == (if e.values().contains_key(key) {
            Some(e.values()[key])
        } else {
            match e.parent() {
                Some(p) => p.lookup(key),
                None => None,
            }
        }),
{
}

/// The name `Debug` gives a level.
pub open spec fn level_text(l: EnvLevel) -> Seq<char> {
    match l {
        EnvLevel::Global => "Global"@,
        EnvLevel::Chain => "Chain"@,
        EnvLevel::Block => "Block"@,
    }
}

fn level_name(l: EnvLevel) -> (r: String)
    ensures
        r@ == level_text(l),
{
    match l {
        EnvLevel::Global => owned("Global"),
        EnvLevel::Chain => owned("Chain"),
        EnvLevel::Block => owned("Block"),
    }
}

impl Env {
    /// The environment's level.
    pub closed spec fn level(&self) -> EnvLevel {
        self.level
    }

    /// The values this environment holds itself.
    pub closed spec fn values(&self) -> Map<Seq<char>, Seq<char>> {
        latest_map(entry_views(self.values@)).map_values(|v: String| v@)
    }

    /// The entries this environment holds, in the order they are kept.
    pub closed spec fn entries(&self) -> Seq<(Seq<char>, Seq<char>)> {
        self.values@.map_values(|e: (String, String)| (e.0@, e.1@))
    }

    /// The environment a lookup falls back to.
    pub closed spec fn parent(&self) -> Option<Env> {
        match self.parent {
            Some(p) => Some(*p),
            None => None,
        }
    }

    /// The value of `key` here, or else in the environments this one
    /// falls back to.
    pub closed spec fn lookup(&self, key: Seq<char>) -> Option<Seq<char>>
        decreases self,
    {
        if self.values().contains_key(key) {
            Some(self.values()[key])
        } else {
            match self.parent {
                Some(p) => (*p).lookup(key),
                None => None,
            }
        }
    }

    /// A copy of this environment's level and values with another parent.
    fn with_parent(&self, parent: Option<EnvRef>) -> (r: Self)
        ensures
            r.level() == self.level(),
            r.values() == self.values(),
            r.entries() == self.entries(),
            r.parent() == (match parent {
                Some(p) => Some(*p),
                None => None::<Env>,
            }),
    {
        let mut values: Vec<(String, String)> = Vec::new();
        let mut i: usize = 0;
        while i < self.values.len()
            invariant
                i <= self.values.len(),
                values@.len() == i,
                forall|j: int|
                    0 <= j < i ==> (#[trigger] values@[j]).0@ == self.values@[j].0@ && values@[j].1@
                        == self.values@[j].1@,
            decreases self.values.len() - i,
        {
            values.push((owned(self.values[i].0.as_str()), owned(self.values[i].1.as_str())));
            i = i + 1;
        }
        let r = Env { level: self.level, values, parent };
        proof {
            lemma_latest_map_views(values@, self.values@);
        }
        assert(r.entries() =~= self.entries());
        assert(r.values() =~= self.values());
        r
    }

    pub fn new(level: EnvLevel, parent: Option<EnvRef>) -> (r: Self)
        ensures
            r.level() == level,
            r.values() == Map::<Seq<char>, Seq<char>>::empty(),
            r.parent() == (match parent {
                Some(p) => Some(*p),
                None => None::<Env>,
            }),
    {
        let r = Self { level, values: Vec::new(), parent };
        assert(r.values() =~= Map::<Seq<char>, Seq<char>>::empty());
        r
    }

    /// Sets `key` to `value` here, replacing any value it had.
    pub fn set(&mut self, key: &str, value: &str)
        ensures
            final(self).level() == old(self).level(),
            final(self).parent() == old(self).parent(),
            final(self).values() == old(self).values().insert(key@, value@),
    {
        let ghost before = entry_views(self.values@);
        remove_named(&mut self.values, key);
        proof {
            lemma_without(before, key@);
        }
        let ghost mid = entry_views(self.values@);
        self.values.push((owned(key), owned(value)));
        assert(entry_views(self.values@).drop_last() =~= mid);
        assert(self.values() =~= old(self).values().insert(key@, value@));
    }

    /// The value of `key` here, or else in the environments this one falls
    /// back to.
    pub fn get(&self, key: &str) -> (r: Option<String>)
        ensures
            r matches Some(s) ==> self.lookup(key@) == Some(s@),
            r is None ==> self.lookup(key@) is None,
        decreases self,
    {
        match find_latest(&self.values, key) {
            Some(i) => Some(owned(self.values[i].1.as_str())),
            None => match &self.parent {
                Some(p) => {
                    assert(decreases_to!(*self => self.parent));
                    p.get(key)
                },
                None => None,
            },
        }
    }

    /// Removes `key` from this environment and gives the value it had
    /// here; the environments it falls back to are left alone.
    pub fn delete(&mut self, key: &str) -> (r: Option<String>)
        ensures
            final(self).level() == old(self).level(),
            final(self).parent() == old(self).parent(),
            final(self).values() == old(self).values().remove(key@),
            r matches Some(s) ==> old(self).values().contains_key(key@) && old(self).values()[key@]
                == s@,
            r is None ==> !old(self).values().contains_key(key@),
    {
        let prev = match find_latest(&self.values, key) {
            Some(i) => Some(owned(self.values[i].1.as_str())),
            None => None,
        };
        let ghost before = entry_views(self.values@);
        remove_named(&mut self.values, key);
        proof {
            lemma_without(before, key@);
        }
        assert(self.values() =~= old(self).values().remove(key@));
        prev
    }

    /// The lines that describe this environment: its level, then each
    /// key with its value.
    pub fn dump(&self) -> (r: Vec<String>)
        ensures
            string_views(r@) == env_lines(self.level(), self.entries()),
    {
        let mut out: Vec<String> = Vec::new();
        let mut head = owned("Env level: ");
        let l = level_name(self.level);
        head.append(l.as_str());
        out.push(head);
        assert(self.entries().take(0) =~= Seq::<(Seq<char>, Seq<char>)>::empty());
        assert(string_views(out@) =~= seq![head@]);
        let mut i: usize = 0;
        while i < self.values.len()
            invariant
                i <= self.values.len(),
                string_views(out@) == env_lines(self.level(), self.entries().take(i as int)),
            decreases self.values.len() - i,
        {
            let mut line = owned(self.values[i].0.as_str());
            line.append(": ");
            line.append(self.values[i].1.as_str());
            let ghost before = string_views(out@);
            out.push(line);
            proof {
                let t = self.entries().take(i + 1);
                assert(t.drop_last() =~= self.entries().take(i as int));
                assert(string_views(out@) =~= before.push(line@));
            }
            i = i + 1;
        }
        assert(self.entries().take(self.values@.len() as int) =~= self.entries());
        out
    }
}

/// The lines that describe an environment: its level, then each key with
/// its value, in the order they are kept.
pub open spec fn env_lines(level: EnvLevel, entries: Seq<(Seq<char>, Seq<char>)>) -> Seq<Seq<char>>
    decreases entries.len(),
{
    if entries.len() == 0 {
        seq!["Env level: "@ + level_text(level)]
    } else {
        env_lines(level, entries.drop_last()).push(
            entries.last().0 + ": "@ + entries.last().1,
        )
    }
}

/// The three environments of a run, where a block lookup falls back to
/// the chain and then the global environment, and a chain lookup to the
/// global one.
pub struct EnvManager {
    global: EnvRef,
    chain: EnvRef,
    block: EnvRef,
}

/// How a key names a level and a name: `name` is the block level's;
/// `global.name`, `chain.name` and `block.name` (any case) name a level;
/// anything else is refused.
pub open spec fn parse_key_spec(key: Seq<char>) -> Option<(EnvLevel, Seq<char>)> {
    let parts = split_all(key, Sep::Dot);
    if parts.len() == 1 {
        Some((EnvLevel::Block, parts[0]))
    } else if parts.len() == 2 {
        let p = ascii_lower(parts[0]);
        if p == "global"@ {
            Some((EnvLevel::Global, parts[1]))
        } else if p == "chain"@ {
            Some((EnvLevel::Chain, parts[1]))
        } else if p == "block"@ {
            Some((EnvLevel::Block, parts[1]))
        } else {
            None
        }
    } else {
        None
    }
}

/// The message refusing a key.
pub open spec fn invalid_key_message(key: Seq<char>) -> Seq<char> {
    "Invalid env key: "@ + key
}

/// The value `name` has at `level`, falling back outwards.
pub open spec fn resolve(
    global: Map<Seq<char>, Seq<char>>,
    chain: Map<Seq<char>, Seq<char>>,
    block: Map<Seq<char>, Seq<char>>,
    level: EnvLevel,
    name: Seq<char>,
) -> Option<Seq<char>> {
    let at_global = if global.contains_key(name) {
        Some(global[name])
    } else {
        None
    };
    let at_chain = if chain.contains_key(name) {
        Some(chain[name])
    } else {
        at_global
    };
    match level {
        EnvLevel::Global => at_global,
        EnvLevel::Chain => at_chain,
        EnvLevel::Block => if block.contains_key(name) {
            Some(block[name])
        } else {
            at_chain
        },
    }
}

/// Law: a value set at a level is what that level then gives.
pub proof fn law_env_get_after_set(
    global: Map<Seq<char>, Seq<char>>,
    chain: Map<Seq<char>, Seq<char>>,
    block: Map<Seq<char>, Seq<char>>,
    level: EnvLevel,
    name: Seq<char>,
    value: Seq<char>,
)
    ensures
        resolve(
            if level == EnvLevel::Global {
                global.insert(name, value)
            } else {
                global
            },
            if level == EnvLevel::Chain {
                chain.insert(name, value)
            } else {
                chain
            },
            if level == EnvLevel::Block {
                block.insert(name, value)
            } else {
                block
            },
            level,
            name,
        ) == Some(value),
{
}

/// Law: a level gives what the levels around it hold unless it holds the
/// name itself; so after a delete it falls back to them.
pub proof fn law_env_falls_back(
    global: Map<Seq<char>, Seq<char>>,
    chain: Map<Seq<char>, Seq<char>>,
    block: Map<Seq<char>, Seq<char>>,
    name: Seq<char>,
)
    ensures
        resolve(global, chain, block.remove(name), EnvLevel::Block, name) == resolve(
            global,
            chain,
            block,
            EnvLevel::Chain,
            name,
        ),
        resolve(global, chain.remove(name), block, EnvLevel::Chain, name) == resolve(
            global,
            chain,
            block,
            EnvLevel::Global,
            name,
        ),
        resolve(global.remove(name), chain, block, EnvLevel::Global, name) is None,
{
}

/// Law: a key without a dot names the block level.
pub proof fn law_plain_key_is_block(key: Seq<char>)
    requires
        forall|i: int| 0 <= i < key.len() ==> key[i] != '.',
    ensures
        parse_key_spec(key) == Some((EnvLevel::Block, key)),
{
    crate::text::lemma_split_without_sep(key, Sep::Dot);
}

impl EnvManager {
    /// The global environment.
    pub closed spec fn global_env(&self) -> Env {
        *self.global
    }

    /// The chain environment, which falls back to the global one.
    pub closed spec fn chain_env(&self) -> Env {
        *self.chain
    }

    /// The block environment, which falls back to the chain one.
    pub closed spec fn block_env(&self) -> Env {
        *self.block
    }

    pub open spec fn global_values(&self) -> Map<Seq<char>, Seq<char>> {
        self.global_env().values()
    }

    pub open spec fn chain_values(&self) -> Map<Seq<char>, Seq<char>> {
        self.chain_env().values()
    }

    pub open spec fn block_values(&self) -> Map<Seq<char>, Seq<char>> {
        self.block_env().values()
    }

    /// The entries of the three environments, global first.
    pub open spec fn all_entries(&self) -> (
        Seq<(Seq<char>, Seq<char>)>,
        Seq<(Seq<char>, Seq<char>)>,
        Seq<(Seq<char>, Seq<char>)>,
    ) {
        (self.global_env().entries(), self.chain_env().entries(), self.block_env().entries())
    }

    /// The value `name` has at `level`, falling back outwards.
    pub open spec fn resolve_at(&self, level: EnvLevel, name: Seq<char>) -> Option<Seq<char>> {
        resolve(self.global_values(), self.chain_values(), self.block_values(), level, name)
    }

    /// The three environments form the chain block -> chain -> global.
    pub open spec fn linked(&self) -> bool {
        &&& self.global_env().level() == EnvLevel::Global
        &&& self.chain_env().level() == EnvLevel::Chain
        &&& self.block_env().level() == EnvLevel::Block
        &&& self.global_env().parent() is None
        &&& self.chain_env().parent() == Some(self.global_env())
        &&& self.block_env().parent() == Some(self.chain_env())
    }

    #[verifier::type_invariant]
    closed spec fn wf(&self) -> bool {
        self.linked()
    }

    /// Lemma: the environments handed out resolve keys as the manager
    /// does: each falls back outwards through its parents.
    pub proof fn lemma_lookup_resolves(&self, name: Seq<char>)
        requires
            self.linked(),
        ensures
            self.global_env().lookup(name) == self.resolve_at(EnvLevel::Global, name),
            self.chain_env().lookup(name) == self.resolve_at(EnvLevel::Chain, name),
            self.block_env().lookup(name) == self.resolve_at(EnvLevel::Block, name),
    {
        lemma_lookup(self.global_env(), name);
        lemma_lookup(self.chain_env(), name);
        lemma_lookup(self.block_env(), name);
    }

    /// Three empty environments, block falling back to chain and chain to
    /// global.
    pub fn new() -> (r: Self)
        ensures
            r.linked(),
            r.global_values() == Map::<Seq<char>, Seq<char>>::empty(),
            r.chain_values() == Map::<Seq<char>, Seq<char>>::empty(),
            r.block_values() == Map::<Seq<char>, Seq<char>>::empty(),
    {
        let global = Arc::new(Env::new(EnvLevel::Global, None));
        let chain = Arc::new(Env::new(EnvLevel::Chain, Some(share(&global))));
        let block = Arc::new(Env::new(EnvLevel::Block, Some(share(&chain))));
        Self { global, chain, block }
    }

    /// The global environment.
    pub fn get_global(&self) -> (r: &EnvRef)
        ensures
            self.linked(),
            **r == self.global_env(),
    {
        proof {
            use_type_invariant(self);
        }
        &self.global
    }

    /// The chain environment; it falls back to the global one.
    pub fn get_chain(&self) -> (r: &EnvRef)
        ensures
            self.linked(),
            **r == self.chain_env(),
    {
        proof {
            use_type_invariant(self);
        }
        &self.chain
    }

    /// The block environment; it falls back to the chain one.
    pub fn get_block(&self) -> (r: &EnvRef)
        ensures
            self.linked(),
            **r == self.block_env(),
    {
        proof {
            use_type_invariant(self);
        }
        &self.block
    }

    /// Splits a key into its level and name.
    fn parse_key(key: &str) -> (r: Result<(EnvLevel, String), String>)
        ensures
            r matches Ok((l, n)) ==> parse_key_spec(key@) == Some((l, n@)),
            r matches Err(m) ==> parse_key_spec(key@) is None && m@ == invalid_key_message(key@),
    {
        let kv = chars_of(key);
        let parts = split_chars(&kv, Sep::Dot);
        assert(views(parts@).len() == parts@.len());
        if parts.len() == 1 {
            assert(views(parts@)[0] == parts@[0]@);
            return Ok((EnvLevel::Block, string_of_all(&parts[0])));
        }
        if parts.len() == 2 {
            assert(views(parts@)[0] == parts@[0]@ && views(parts@)[1] == parts@[1]@);
            let p = lower_ascii(&parts[0]);
            let name = string_of_all(&parts[1]);
            if chars_eq(&p, &chars_of("global")) {
                return Ok((EnvLevel::Global, name));
            } else if chars_eq(&p, &chars_of("chain")) {
                return Ok((EnvLevel::Chain, name));
            } else if chars_eq(&p, &chars_of("block")) {
                return Ok((EnvLevel::Block, name));
            }
        }
        let mut msg = owned("Invalid env key: ");
        msg.append(key);
        Err(msg)
    }

    /// Sets a value by key; a key naming no level is refused.
    pub fn set(&mut self, key: &str, value: &str) -> (r: Result<(), String>)
        ensures
            r is Err <==> parse_key_spec(key@) is None,
            r matches Err(m) ==> m@ == invalid_key_message(key@),
            r is Err ==> final(self).global_values() == old(self).global_values()
                && final(self).chain_values() == old(self).chain_values()
                && final(self).block_values() == old(self).block_values(),
            parse_key_spec(key@) matches Some((l, n)) ==> final(self).global_values() == (if l
                == EnvLevel::Global {
                old(self).global_values().insert(n, value@)
            } else {
                old(self).global_values()
            }) && final(self).chain_values() == (if l == EnvLevel::Chain {
                old(self).chain_values().insert(n, value@)
            } else {
                old(self).chain_values()
            }) && final(self).block_values() == (if l == EnvLevel::Block {
                old(self).block_values().insert(n, value@)
            } else {
                old(self).block_values()
            }),
    {
        match Self::parse_key(key) {
            Err(e) => Err(e),
            Ok((level, name)) => {
                self.set_inner(level, name.as_str(), value);
                Ok(())
            },
        }
    }

    /// The manager with the environment of `level` replaced by `env`, the
    /// ones inside it rebuilt to fall back to the new one.
    fn relink(&mut self, level: EnvLevel, env: Env)
        requires
            env.level() == level,
            level == EnvLevel::Global ==> env.parent() is None,
            level == EnvLevel::Chain ==> env.parent() == Some(old(self).global_env()),
            level == EnvLevel::Block ==> env.parent() == Some(old(self).chain_env()),
        ensures
            final(self).global_values() == (if level == EnvLevel::Global {
                env.values()
            } else {
                old(self).global_values()
            }),
            final(self).chain_values() == (if level == EnvLevel::Chain {
                env.values()
            } else {
                old(self).chain_values()
            }),
            final(self).block_values() == (if level == EnvLevel::Block {
                env.values()
            } else {
                old(self).block_values()
            }),
            final(self).all_entries().0 == (if level == EnvLevel::Global {
                env.entries()
            } else {
                old(self).all_entries().0
            }),
            final(self).all_entries().1 == (if level == EnvLevel::Chain {
                env.entries()
            } else {
                old(self).all_entries().1
            }),
            final(self).all_entries().2 == (if level == EnvLevel::Block {
                env.entries()
            } else {
                old(self).all_entries().2
            }),
    {
        proof {
            use_type_invariant(&*self);
        }
        match level {
            EnvLevel::Global => {
                let g = Arc::new(env);
                let c = Arc::new(self.chain.with_parent(Some(share(&g))));
                let b = Arc::new(self.block.with_parent(Some(share(&c))));
                *self = EnvManager { global: g, chain: c, block: b };
            },
            EnvLevel::Chain => {
                let g = share(&self.global);
                let c = Arc::new(env);
                let b = Arc::new(self.block.with_parent(Some(share(&c))));
                *self = EnvManager { global: g, chain: c, block: b };
            },
            EnvLevel::Block => {
                let g = share(&self.global);
                let c = share(&self.chain);
                let b = Arc::new(env);
                *self = EnvManager { global: g, chain: c, block: b };
            },
        }
    }

    /// A copy of the environment of `level`, with the parent it has.
    fn take_copy(&self, level: EnvLevel) -> (r: Env)
        ensures
            r.level() == level,
            level == EnvLevel::Global ==> r.parent() is None && r.values() == self.global_values()
                && r.entries() == self.all_entries().0,
            level == EnvLevel::Chain ==> r.parent() == Some(self.global_env()) && r.values()
                == self.chain_values() && r.entries() == self.all_entries().1,
            level == EnvLevel::Block ==> r.parent() == Some(self.chain_env()) && r.values()
                == self.block_values() && r.entries() == self.all_entries().2,
    {
        proof {
            use_type_invariant(self);
        }
        match level {
            EnvLevel::Global => self.global.with_parent(None),
            EnvLevel::Chain => self.chain.with_parent(Some(share(&self.global))),
            EnvLevel::Block => self.block.with_parent(Some(share(&self.chain))),
        }
    }

    fn set_inner(&mut self, level: EnvLevel, key: &str, value: &str)
        ensures
            final(self).global_values() == (if level == EnvLevel::Global {
                old(self).global_values().insert(key@, value@)
            } else {
                old(self).global_values()
            }),
            final(self).chain_values() == (if level == EnvLevel::Chain {
                old(self).chain_values().insert(key@, value@)
            } else {
                old(self).chain_values()
            }),
            final(self).block_values() == (if level == EnvLevel::Block {
                old(self).block_values().insert(key@, value@)
            } else {
                old(self).block_values()
            }),
    {
        let mut env = self.take_copy(level);
        env.set(key, value);
        self.relink(level, env);
    }

    /// Reads a value by key, falling back outwards from the level the key
    /// names; a key naming no level is refused.
    pub fn get(&self, key: &str) -> (r: Result<Option<String>, String>)
        ensures
            r is Err <==> parse_key_spec(key@) is None,
            r matches Err(m) ==> m@ == invalid_key_message(key@),
            parse_key_spec(key@) matches Some((l, n)) ==> (r matches Ok(v) && (v matches Some(s)
                ==> self.resolve_at(l, n) == Some(s@)) && (v is None ==> self.resolve_at(l, n) is None)),
    {
        match Self::parse_key(key) {
            Err(e) => Err(e),
            Ok((level, name)) => Ok(self.get_inner(level, name.as_str())),
        }
    }

    fn get_inner(&self, level: EnvLevel, key: &str) -> (r: Option<String>)
        ensures
            r matches Some(s) ==> self.resolve_at(level, key@) == Some(s@),
            r is None ==> self.resolve_at(level, key@) is None,
    {
        proof {
            use_type_invariant(self);
            self.lemma_lookup_resolves(key@);
        }
        match level {
            EnvLevel::Global => self.global.get(key),
            EnvLevel::Chain => self.chain.get(key),
            EnvLevel::Block => self.block.get(key),
        }
    }

    /// Removes a value by key from the level the key names and gives the
    /// value it had there; a key naming no level is refused.
    pub fn delete(&mut self, key: &str) -> (r: Result<Option<String>, String>)
        ensures
            r is Err <==> parse_key_spec(key@) is None,
            r matches Err(m) ==> m@ == invalid_key_message(key@),
            r is Err ==> final(self).global_values() == old(self).global_values()
                && final(self).chain_values() == old(self).chain_values()
                && final(self).block_values() == old(self).block_values(),
            parse_key_spec(key@) matches Some((l, n)) ==> final(self).global_values() == (if l
                == EnvLevel::Global {
                old(self).global_values().remove(n)
            } else {
                old(self).global_values()
            }) && final(self).chain_values() == (if l == EnvLevel::Chain {
                old(self).chain_values().remove(n)
            } else {
                old(self).chain_values()
            }) && final(self).block_values() == (if l == EnvLevel::Block {
                old(self).block_values().remove(n)
            } else {
                old(self).block_values()
            }),
            parse_key_spec(key@) matches Some((l, n)) ==> (r matches Ok(v) && (v matches Some(s)
                ==> level_values(*old(self), l).contains_key(n) && level_values(*old(self), l)[n]
                == s@) && (v is None ==> !level_values(*old(self), l).contains_key(n))),
    {
        match Self::parse_key(key) {
            Err(e) => Err(e),
            Ok((level, name)) => Ok(self.delete_inner(level, name.as_str())),
        }
    }

    fn delete_inner(&mut self, level: EnvLevel, key: &str) -> (r: Option<String>)
        ensures
            final(self).global_values() == (if level == EnvLevel::Global {
                old(self).global_values().remove(key@)
            } else {
                old(self).global_values()
            }),
            final(self).chain_values() == (if level == EnvLevel::Chain {
                old(self).chain_values().remove(key@)
            } else {
                old(self).chain_values()
            }),
            final(self).block_values() == (if level == EnvLevel::Block {
                old(self).block_values().remove(key@)
            } else {
                old(self).block_values()
            }),
            r matches Some(s) ==> level_values(*old(self), level).contains_key(key@)
                && level_values(*old(self), level)[key@] == s@,
            r is None ==> !level_values(*old(self), level).contains_key(key@),
    {
        let mut env = self.take_copy(level);
        let r = env.delete(key);
        self.relink(level, env);
        r
    }

    /// The lines that describe the three environments, global first.
    pub fn dump(&self) -> (r: Vec<String>)
        ensures
            string_views(r@) == env_lines(EnvLevel::Global, self.all_entries().0) + env_lines(
                EnvLevel::Chain,
                self.all_entries().1,
            ) + env_lines(EnvLevel::Block, self.all_entries().2),
    {
        proof {
            use_type_invariant(self);
        }
        let mut out = self.global.dump();
        let mut c = self.chain.dump();
        let mut b = self.block.dump();
        let ghost (x, y, z) = (string_views(out@), string_views(c@), string_views(b@));
        out.append(&mut c);
        assert(string_views(out@) =~= x + y);
        out.append(&mut b);
        assert(string_views(out@) =~= x + y + z);
        out
    }
}

/// The values of the environment of `level` in `m`.
pub open spec fn level_values(m: EnvManager, level: EnvLevel) -> Map<Seq<char>, Seq<char>> {
    match level {
        EnvLevel::Global => m.global_values(),
        EnvLevel::Chain => m.chain_values(),
        EnvLevel::Block => m.block_values(),
    }
}
} // verus!
