//! Requests, responses and the toy store that executes them.
use vstd::prelude::*;
use crate::error::{Error, RedisError};

verus! {

/// A decoded request: its name, then its arguments.
#[derive(Debug)]
pub struct CmdReq {
    pub command: Vec<u8>,
    pub args: Vec<Vec<u8>>,
}

/// The bytes of each argument.
pub open spec fn args_view(args: Seq<Vec<u8>>) -> Seq<Seq<u8>> {
    args.map_values(|a: Vec<u8>| a@)
}

impl CmdReq {
    /// The request as a sequence of byte strings, its name first.
    pub open spec fn parts(&self) -> Seq<Seq<u8>> {
        seq![self.command@] + args_view(self.args@)
    }

    pub fn new() -> (r: CmdReq)
        ensures
            r.command@ == Seq::<u8>::empty(),
            r.args@ == Seq::<Vec<u8>>::empty(),
    {
        CmdReq { command: Vec::new(), args: Vec::new() }
    }

    /// Empties the name and the arguments, keeping their storage.
    pub fn reset(&mut self)
        ensures
            final(self).command@ == Seq::<u8>::empty(),
            final(self).args@ == Seq::<Vec<u8>>::empty(),
    {
        self.command.clear();
        self.args.clear();
    }
}

/// The bytes of a response.
#[derive(Debug)]
pub struct CmdResp {
    pub data: Vec<u8>,
}

impl CmdResp {
    pub fn new() -> (r: CmdResp)
        ensures
            r.data@ == Seq::<u8>::empty(),
    {
        CmdResp { data: Vec::new() }
    }

    pub fn as_bytes(&self) -> (r: &[u8])
        ensures
            r@ == self.data@,
    {
        self.data.as_slice()
    }
}

/// Reply to a command that succeeded.
pub open spec fn ok_reply() -> Seq<u8> {
    seq!['+' as u8, 'O' as u8, 'K' as u8, '\r' as u8, '\n' as u8]
}

pub open spec fn set_name() -> Seq<u8> {
    seq!['S' as u8, 'E' as u8, 'T' as u8]
}

/// The store that a sequence of entries denotes: a later entry for a key
/// overrides an earlier one.
pub open spec fn kv_map(kv: Seq<(Vec<u8>, Vec<u8>)>) -> Map<Seq<u8>, Seq<u8>>
    decreases kv.len(),
{
    if kv.len() == 0 {
        Map::empty()
    } else {
        kv_map(kv.drop_last()).insert(kv.last().0@, kv.last().1@)
    }
}

/// No key appears in two entries.
pub open spec fn keys_unique(kv: Seq<(Vec<u8>, Vec<u8>)>) -> bool {
    forall|i: int, j: int| 0 <= i < j < kv.len() ==> kv[i].0@ != kv[j].0@
}

/// Overwriting the value of an entry stores the new value under its key.
proof fn lemma_kv_update(kv: Seq<(Vec<u8>, Vec<u8>)>, i: int, e: (Vec<u8>, Vec<u8>))
    requires
        keys_unique(kv),
        0 <= i < kv.len(),
        kv[i].0@ == e.0@,
    ensures
        kv_map(kv.update(i, e)) == kv_map(kv).insert(e.0@, e.1@),
    decreases kv.len(),
{
    let u = kv.update(i, e);
    if i == kv.len() - 1 {
        assert(u.drop_last() =~= kv.drop_last());
        assert(kv_map(u) =~= kv_map(kv).insert(e.0@, e.1@));
    } else {
        let d = kv.drop_last();
        assert(keys_unique(d));
        lemma_kv_update(d, i, e);
        assert(u.drop_last() =~= d.update(i, e));
        assert(kv.last().0@ != e.0@);
        assert(kv_map(u) =~= kv_map(kv).insert(e.0@, e.1@));
    }
}

/// A key found in no entry is not in the store.
proof fn lemma_kv_absent(kv: Seq<(Vec<u8>, Vec<u8>)>, k: Seq<u8>)
    requires
        forall|i: int| 0 <= i < kv.len() ==> kv[i].0@ != k,
    ensures
        !kv_map(kv).contains_key(k),
    decreases kv.len(),
{
    if kv.len() > 0 {
        lemma_kv_absent(kv.drop_last(), k);
    }
}

/// Whether two byte strings are equal.
fn bytes_eq(a: &[u8], b: &[u8]) -> (r: bool)
    ensures
        r == (a@ == b@),
{
    if a.len() != b.len() {
        return false;
    }
    let mut i: usize = 0;
    while i < a.len()
        invariant
            a@.len() == b@.len(),
            0 <= i <= a@.len(),
            forall|j: int| 0 <= j < i ==> a@[j] == b@[j],
        decreases a@.len() - i,
    {
        if a[i] != b[i] {
            return false;
        }
        i = i + 1;
    }
    assert(a@ =~= b@);
    true
}

/// What a command does: the new store and the reply, or `None` where the
/// command is refused.
pub open spec fn command_effect(
    store: Map<Seq<u8>, Seq<u8>>,
    command: Seq<u8>,
    args: Seq<Seq<u8>>,
) -> Option<(Map<Seq<u8>, Seq<u8>>, Seq<u8>)> {
    if command == set_name() {
        if args.len() >= 2 {
            Some((store.insert(args[0], args[1]), ok_reply()))
        } else {
            None
        }
    } else {
        Some((store, ok_reply()))
    }
}

/// Something that runs against the store.
pub trait Command<R, E> {
    fn exec(&mut self, db: &mut DB) -> (r: Result<R, E>)
        requires
            old(db).wf(),
        ensures
            final(db).wf(),
    ;
}

impl Command<CmdResp, Error> for CmdReq {
    /// Runs the request and wraps its reply.
    fn exec(&mut self, db: &mut DB) -> (r: Result<CmdResp, Error>)
        ensures
            *final(self) == *old(self),
            match command_effect(old(db).store(), old(self).command@, args_view(old(self).args@)) {
                Some((store, reply)) => r matches Ok(resp) && resp.data@ == reply && final(db).store()
                    == store,
                None => r is Err && final(db).store() == old(db).store(),
            },
    {
        match db.process_command(&self.command, &self.args) {
            Ok(data) => Ok(CmdResp { data }),
            Err(e) => Err(e),
        }
    }
}

/// A key-value store.
pub struct DB {
    kv: Vec<(Vec<u8>, Vec<u8>)>,
}

impl DB {
    /// What the store holds.
    pub closed spec fn store(&self) -> Map<Seq<u8>, Seq<u8>> {
        kv_map(self.kv@)
    }

    pub closed spec fn wf(&self) -> bool {
        keys_unique(self.kv@)
    }

    pub fn new() -> (r: DB)
        ensures
            r.wf(),
            r.store() == Map::<Seq<u8>, Seq<u8>>::empty(),
    {
        DB { kv: Vec::new() }
    }

    /// Stores `value` under `key`.
    fn set(&mut self, key: &Vec<u8>, value: &Vec<u8>)
        requires
            old(self).wf(),
        ensures
            final(self).wf(),
            final(self).store() == old(self).store().insert(key@, value@),
    {
        let mut i: usize = 0;
        while i < self.kv.len()
            invariant
                0 <= i <= self.kv@.len(),
                self.kv@ == old(self).kv@,
                keys_unique(self.kv@),
                forall|j: int| 0 <= j < i ==> self.kv@[j].0@ != key@,
            decreases self.kv@.len() - i,
        {
            if bytes_eq(self.kv[i].0.as_slice(), key.as_slice()) {
                let e = (self.kv[i].0.clone(), value.clone());
                proof {
                    lemma_kv_update(self.kv@, i as int, e);
                }
                self.kv.set(i, e);
                assert forall|a: int, b: int| 0 <= a < b < self.kv@.len() implies self.kv@[a].0@
                    != self.kv@[b].0@ by {
                    assert(old(self).kv@[a].0@ != old(self).kv@[b].0@);
                    assert(self.kv@[a].0@ == old(self).kv@[a].0@);
                    assert(self.kv@[b].0@ == old(self).kv@[b].0@);
                }
                return;
            }
            i = i + 1;
        }
        proof {
            lemma_kv_absent(self.kv@, key@);
        }
        let ghost before = self.kv@;
        self.kv.push((key.clone(), value.clone()));
        assert(self.kv@.drop_last() =~= before);
    }

    /// Runs one command: `SET key value` stores the value under the key
    /// (arguments after the second are ignored) and answers `+OK`; any other
    /// command answers `+OK` and changes nothing. `SET` with fewer than two
    /// arguments is refused and changes nothing.
    pub fn process_command(&mut self, command: &Vec<u8>, arg: &Vec<Vec<u8>>) -> (r: Result<Vec<u8>, Error>)
        requires
            old(self).wf(),
        ensures
            final(self).wf(),
            match command_effect(old(self).store(), command@, args_view(arg@)) {
                Some((store, reply)) => r matches Ok(v) && v@ == reply && final(self).store() == store,
                None => r is Err && final(self).store() == old(self).store(),
            },
    {
        let set: Vec<u8> = vec!['S' as u8, 'E' as u8, 'T' as u8];
        assert(set@ =~= set_name());
        if bytes_eq(command.as_slice(), set.as_slice()) {
            if arg.len() < 2 {
                return Err(Error::Redis(RedisError::new(String::from_str("wrong number of arguments"))));
            }
            self.set(&arg[0], &arg[1]);
        }
        let r: Vec<u8> = vec!['+' as u8, 'O' as u8, 'K' as u8, '\r' as u8, '\n' as u8];
        assert(r@ =~= ok_reply());
        Ok(r)
    }
}

} // verus!
