//! The command executor: one resolved command becomes one store operation
//! plus the exact lines the tool prints, a flag saying whether the store
//! changed (so the caller knows to persist it), and, for `Copy`, the text
//! to hand to the clipboard.
use vstd::prelude::*;

use crate::chars::dec_of;
use crate::codec::parse_id;
use crate::store::{
    first_with_id, first_with_key, next_id_of, without_id, RecView, Record, Store,
};

verus! {

/// One invocation's command. `target` is an id unless `by_key` is set.
pub enum Command {
    Get { target: String, by_key: bool },
    Put { key: String, value: String },
    Del { target: String, by_key: bool },
    List,
    Copy { target: String, by_key: bool },
}

/// What one command produces: lines to print in order, whether the store
/// was changed, and text to place on the clipboard.
pub struct Outcome {
    pub lines: Vec<String>,
    pub mutated: bool,
    pub clipboard: Option<String>,
}

/// Which record a target names: by key the first (lowest-id) match, by id
/// the record under the numeric id, and no record at all when the target
/// is not a number.
pub open spec fn resolve(s: Seq<RecView>, target: Seq<char>, by_key: bool) -> Option<RecView> {
    if by_key {
        first_with_key(s, target)
    } else {
        match parse_id(target) {
            None => None,
            Some(id) => first_with_id(s, id),
        }
    }
}

/// `(nil)`
pub open spec fn line_nil() -> Seq<char> {
    "(nil)"@
}

/// `OK (id = N)`
pub open spec fn line_ok(id: u64) -> Seq<char> {
    "OK (id = "@ + dec_of(id as nat) + ")"@
}

/// `(integer) 1` or `(integer) 0`: whether a record was removed.
pub open spec fn line_removed(hit: bool) -> Seq<char> {
    if hit {
        "(integer) 1"@
    } else {
        "(integer) 0"@
    }
}

/// `N => (K => V)`
pub open spec fn line_list(r: RecView) -> Seq<char> {
    dec_of(r.id as nat) + " => ("@ + r.key + " => "@ + r.value + ")"@
}

/// `copied 'V' to clipboard`
pub open spec fn line_copied(value: Seq<char>) -> Seq<char> {
    "copied '"@ + value + "' to clipboard"@
}

/// Looks up the record a target names.
pub exec fn resolve_target<'a>(store: &'a Store, target: &String, by_key: bool) -> (r: Option<
    &'a Record,
>)
    ensures
        match r {
            Some(rec) => resolve(store@, target@, by_key) == Some(rec@),
            None => resolve(store@, target@, by_key) is None,
        },
{
    if by_key {
        store.get_by_key(target)
    } else {
        match crate::codec::parse_id_text(target.as_str()) {
            None => None,
            Some(id) => store.get_by_id(id),
        }
    }
}

exec fn render_ok(id: u64) -> (s: String)
    ensures
        s@ == line_ok(id),
{
    let digits = crate::chars::u64_to_string(id);
    let s = String::from_str("OK (id = ").concat(digits.as_str()).concat(")");
    proof {
        assert(s@ =~= line_ok(id));
    }
    s
}

exec fn render_list_line(rec: &Record) -> (s: String)
    ensures
        s@ == line_list(rec@),
{
    let digits = crate::chars::u64_to_string(rec.id);
    let s = digits.concat(" => (").concat(rec.key.as_str()).concat(" => ").concat(
        rec.value.as_str(),
    ).concat(")");
    proof {
        assert(s@ =~= line_list(rec@));
    }
    s
}

exec fn render_copied(value: &String) -> (s: String)
    ensures
        s@ == line_copied(value@),
{
    let s = String::from_str("copied '").concat(value.as_str()).concat("' to clipboard");
    proof {
        assert(s@ =~= line_copied(value@));
    }
    s
}

/// Runs one command against the store. The outcome's lines are exactly
/// what the tool prints, `mutated` says whether the database text must be
/// rewritten, and `clipboard` carries the value a `Copy` found.
pub exec fn execute(store: &mut Store, cmd: Command) -> (out: Outcome)
    requires
        old(store).wf(),
        cmd is Put ==> old(store).can_insert(),
    ensures
        final(store).wf(),
        match cmd {
            Command::Get { target, by_key } => final(store)@ == old(store)@ && !out.mutated
                && out.clipboard is None && out.lines@.len() == 1 && (match resolve(
                old(store)@,
                target@,
                by_key,
            ) {
                Some(r) => out.lines@[0]@ == r.value,
                None => out.lines@[0]@ == line_nil(),
            }),
            Command::Put { key, value } => out.mutated && out.clipboard is None && final(store)@
                == old(store)@.push(
                RecView {
                    id: next_id_of(old(store)@) as u64,
                    key: key@,
                    value: value@,
                },
            ) && out.lines@.len() == 1 && out.lines@[0]@ == line_ok(
                next_id_of(old(store)@) as u64,
            ),
            Command::Del { target, by_key } => out.clipboard is None && out.lines@.len() == 1
                && (match resolve(old(store)@, target@, by_key) {
                Some(r) => out.mutated && final(store)@ == without_id(old(store)@, r.id)
                    && out.lines@[0]@ == line_removed(true),
                None => !out.mutated && final(store)@ == old(store)@ && out.lines@[0]@
                    == line_removed(false),
            }),
            Command::List => final(store)@ == old(store)@ && !out.mutated && out.clipboard is None
                && out.lines@.len() == old(store)@.len() && forall|i: int|
                0 <= i < out.lines@.len() ==> (#[trigger] out.lines@[i])@ == line_list(
                    old(store)@[i],
                ),
            Command::Copy { target, by_key } => final(store)@ == old(store)@ && !out.mutated
                && out.lines@.len() == 1 && (match resolve(old(store)@, target@, by_key) {
                Some(r) => (out.clipboard matches Some(c) && c@ == r.value) && out.lines@[0]@
                    == line_copied(r.value),
                None => out.clipboard is None && out.lines@[0]@ == line_nil(),
            }),
        },
{
    match cmd {
        Command::Get { target, by_key } => {
            let mut lines: Vec<String> = Vec::new();
            match resolve_target(store, &target, by_key) {
                Some(rec) => lines.push(rec.value.clone()),
                None => lines.push(String::from_str("(nil)")),
            }
            Outcome { lines, mutated: false, clipboard: None }
        },
        Command::Put { key, value } => {
            let id = store.insert(key, value);
            let mut lines: Vec<String> = Vec::new();
            lines.push(render_ok(id));
            Outcome { lines, mutated: true, clipboard: None }
        },
        Command::Del { target, by_key } => {
            let removed: bool = if by_key {
                store.remove_by_key(&target)
            } else {
                match crate::codec::parse_id_text(target.as_str()) {
                    None => false,
                    Some(id) => {
                        let r = store.remove_by_id(id);
                        proof {
                            crate::store::lemma_first_id_is(old(store)@, id);
                            if first_with_id(old(store)@, id) is None {
                                crate::store::lemma_first_id_none(old(store)@, id);
                                crate::store::lemma_without_id_all_kept(old(store)@, id);
                            }
                        }
                        r
                    },
                }
            };
            let mut lines: Vec<String> = Vec::new();
            if removed {
                lines.push(String::from_str("(integer) 1"));
            } else {
                lines.push(String::from_str("(integer) 0"));
            }
            Outcome { lines, mutated: removed, clipboard: None }
        },
        Command::List => {
            let recs = store.records();
            let n = recs.len();
            let mut lines: Vec<String> = Vec::new();
            let mut i: usize = 0;
            while i < n
                invariant
                    n == recs.len(),
                    recs@.map_values(|r2: Record| r2@) == store@,
                    0 <= i <= n,
                    lines@.len() == i,
                    forall|j: int| 0 <= j < i ==> (#[trigger] lines@[j])@ == line_list(store@[j]),
                decreases n - i,
            {
                lines.push(render_list_line(&recs[i]));
                i += 1;
            }
            Outcome { lines, mutated: false, clipboard: None }
        },
        Command::Copy { target, by_key } => {
            let mut lines: Vec<String> = Vec::new();
            let clipboard: Option<String> = match resolve_target(store, &target, by_key) {
                Some(rec) => {
                    lines.push(render_copied(&rec.value));
                    Some(rec.value.clone())
                },
                None => {
                    lines.push(String::from_str("(nil)"));
                    None
                },
            };
            Outcome { lines, mutated: false, clipboard }
        },
    }
}

} // verus!
