//! Language executors: an immutable registry mapping a fence's language
//! tag to the program that runs a block's code, and the resolution step
//! that turns a code block into a concrete process invocation.
//!
//! The library only decides *what* to run: spawning the process is the
//! caller's capability. `Executors::execute` resolves a block's language
//! tag and hands back the invocation to perform, or nothing when the tag
//! is absent or unregistered — which is a silent skip, not an error.

use crate::markdown::CodeBlockBody;
use crate::scan::str_eq;
use vstd::prelude::*;
use vstd::string::*;

verus! {

/// Mathematical image of an executor: the program and its fixed leading
/// arguments.
pub ghost struct ExecutorModel {
    pub program: Seq<char>,
    pub base_args: Seq<Seq<char>>,
}

/// Executes code blocks for a particular language: a program and the
/// arguments that precede the code.
pub struct LangExecutor {
    program: String,
    base_args: Vec<String>,
}

impl View for LangExecutor {
    type V = ExecutorModel;

    closed spec fn view(&self) -> ExecutorModel {
        ExecutorModel { program: self.program@, base_args: self.base_args.deep_view() }
    }
}

impl LangExecutor {
    pub fn new(program: String, base_args: Vec<String>) -> (r: LangExecutor)
        ensures
            r@.program == program@,
            r@.base_args == base_args.deep_view(),
    {
        LangExecutor { program, base_args }
    }
}

/// A concrete process invocation: run `program` with `args`, the block's
/// code standing last among the arguments.
#[derive(Debug, PartialEq)]
pub struct Invocation {
    pub program: String,
    pub args: Vec<String>,
}

/// The registry built from a sequence of tag/executor entries: a later
/// entry wins over an earlier one with the same tag.
pub open spec fn registry_map(entries: Seq<(Seq<char>, ExecutorModel)>) -> Map<
    Seq<char>,
    ExecutorModel,
>
    decreases entries.len(),
{
    if entries.len() == 0 {
        Map::empty()
    } else {
        registry_map(entries.drop_last()).insert(entries.last().0, entries.last().1)
    }
}

/// With pairwise distinct tags, the registry holds exactly the entries.
pub proof fn lemma_registry_map_entries(entries: Seq<(Seq<char>, ExecutorModel)>)
    requires
        forall|i: int, j: int|
            0 <= i < j < entries.len() ==> entries[i].0 != entries[j].0,
    ensures
        forall|k: Seq<char>|
            registry_map(entries).dom().contains(k) <==> exists|i: int|
                0 <= i < entries.len() && entries[i].0 == k,
        forall|i: int|
            0 <= i < entries.len() ==> registry_map(entries).dom().contains(#[trigger] entries[i].0)
                && registry_map(entries)[entries[i].0] == entries[i].1,
    decreases entries.len(),
{
    if entries.len() > 0 {
        lemma_registry_map_entries(entries.drop_last());
        assert forall|k: Seq<char>| registry_map(entries).dom().contains(k) implies exists|i: int|
            0 <= i < entries.len() && entries[i].0 == k by {
            if k == entries.last().0 {
                assert(entries[entries.len() - 1].0 == k);
            } else {
                assert(registry_map(entries.drop_last()).dom().contains(k));
                let i = choose|i: int|
                    0 <= i < entries.drop_last().len() && entries.drop_last()[i].0 == k;
                assert(entries.drop_last()[i] == entries[i]);
                assert(entries[i].0 == k);
            }
        }
        assert forall|k: Seq<char>|
            (exists|i: int| 0 <= i < entries.len() && entries[i].0 == k) implies registry_map(
            entries,
        ).dom().contains(k) by {
            let i = choose|i: int| 0 <= i < entries.len() && entries[i].0 == k;
            if i < entries.len() - 1 {
                assert(entries.drop_last()[i].0 == k);
            }
        }
        assert forall|i: int| 0 <= i < entries.len() implies registry_map(entries).dom().contains(
            #[trigger] entries[i].0,
        ) && registry_map(entries)[entries[i].0] == entries[i].1 by {
            if i < entries.len() - 1 {
                assert(entries.drop_last()[i].0 == entries[i].0);
                assert(entries[i].0 != entries.last().0);
            }
        }
    }
}

/// The immutable registry of language executors, built once.
pub struct Executors {
    entries: Vec<(String, LangExecutor)>,
}

impl Executors {
    /// The registry's entries as tag/executor models, in order.
    pub closed spec fn entry_models(&self) -> Seq<(Seq<char>, ExecutorModel)> {
        Seq::new(self.entries.len() as nat, |i: int| (self.entries[i].0@, self.entries[i].1@))
    }

    /// The tags are pairwise distinct, so the registry is exactly the
    /// entry list.
    pub closed spec fn wf(&self) -> bool {
        forall|i: int, j: int|
            0 <= i < j < self.entry_models().len() ==> self.entry_models()[i].0
                != self.entry_models()[j].0
    }
}

impl View for Executors {
    type V = Map<Seq<char>, ExecutorModel>;

    closed spec fn view(&self) -> Map<Seq<char>, ExecutorModel> {
        registry_map(self.entry_models())
    }
}

/// The registry the program starts with: `sh` and its alias `shell` run
/// through `sh -c`, and `bash` runs through `bash -c`.
pub open spec fn default_registry() -> Map<Seq<char>, ExecutorModel> {
    Map::empty().insert(
        "sh"@,
        ExecutorModel { program: "sh"@, base_args: seq!["-c"@] },
    ).insert("bash"@, ExecutorModel { program: "bash"@, base_args: seq!["-c"@] }).insert(
        "shell"@,
        ExecutorModel { program: "sh"@, base_args: seq!["-c"@] },
    )
}

impl Executors {
    /// Build the default registry.
    pub fn default_executors() -> (r: Executors)
        ensures
            r.wf(),
            r@ == default_registry(),
    {
        let mut entries: Vec<(String, LangExecutor)> = Vec::new();
        let mut args0: Vec<String> = Vec::new();
        args0.push("-c".to_owned());
        entries.push(("sh".to_owned(), LangExecutor::new("sh".to_owned(), args0)));
        let mut args1: Vec<String> = Vec::new();
        args1.push("-c".to_owned());
        entries.push(("bash".to_owned(), LangExecutor::new("bash".to_owned(), args1)));
        let mut args2: Vec<String> = Vec::new();
        args2.push("-c".to_owned());
        entries.push(("shell".to_owned(), LangExecutor::new("sh".to_owned(), args2)));
        let r = Executors { entries };
        proof {
            reveal_strlit("sh");
            reveal_strlit("bash");
            reveal_strlit("shell");
            reveal_strlit("-c");
            let em = r.entry_models();
            assert(em[0].1.base_args =~= seq!["-c"@]);
            assert(em[1].1.base_args =~= seq!["-c"@]);
            assert(em[2].1.base_args =~= seq!["-c"@]);
            let dl1 = em.drop_last();
            let dl2 = dl1.drop_last();
            let dl3 = dl2.drop_last();
            assert(dl3 =~= Seq::<(Seq<char>, ExecutorModel)>::empty());
            assert(registry_map(dl3) =~= Map::<Seq<char>, ExecutorModel>::empty());
            assert(dl2.last() == ("sh"@, ExecutorModel { program: "sh"@, base_args: seq!["-c"@] }));
            assert(dl1.last() == ("bash"@, ExecutorModel {
                program: "bash"@,
                base_args: seq!["-c"@],
            }));
            assert(em.last() == ("shell"@, ExecutorModel {
                program: "sh"@,
                base_args: seq!["-c"@],
            }));
            assert(registry_map(dl2) == registry_map(dl3).insert(dl2.last().0, dl2.last().1));
            assert(registry_map(dl1) == registry_map(dl2).insert(dl1.last().0, dl1.last().1));
            assert(registry_map(em) == registry_map(dl1).insert(em.last().0, em.last().1));
            assert(r@ =~= default_registry());
            assert(em[0].0 == "sh"@ && em[1].0 == "bash"@ && em[2].0 == "shell"@);
            assert("sh"@.len() == 2 && "bash"@.len() == 4 && "shell"@.len() == 5);
            assert(r.wf());
        }
        r
    }

    /// Resolve a code block against the registry.
    ///
    /// With a registered language tag, the result is the invocation to
    /// perform: the tag's program, its base arguments, and the block's
    /// code appended as the final argument. With no tag, or a tag that
    /// resolves to nothing, there is nothing to run and nothing returned.
    pub fn execute(&self, body: &CodeBlockBody) -> (r: Option<Invocation>)
        requires
            self.wf(),
        ensures
            match body.lang {
                Some(lang) => match r {
                    Some(inv) => self@.dom().contains(lang@) && inv.program@
                        == self@[lang@].program && inv.args.deep_view()
                        == self@[lang@].base_args.push(body.code@),
                    None => !self@.dom().contains(lang@),
                },
                None => r is None,
            },
    {
        let lang = match &body.lang {
            Some(l) => l,
            None => {
                return None;
            },
        };
        proof {
            lemma_registry_map_entries(self.entry_models());
        }
        let mut i: usize = 0;
        while i < self.entries.len()
            invariant
                self.wf(),
                i <= self.entries.len(),
                body.lang == Some(*lang),
                forall|j: int| 0 <= j < i ==> self.entry_models()[j].0 != lang@,
                forall|j: int|
                    0 <= j < self.entry_models().len()
                        ==> (self.entry_models()[j].0 == lang@ ==> self@.dom().contains(lang@)
                        && self@[lang@] == self.entry_models()[j].1),
                forall|k: Seq<char>|
                    self@.dom().contains(k) ==> exists|j: int|
                        0 <= j < self.entry_models().len() && self.entry_models()[j].0 == k,
            decreases self.entries.len() - i,
        {
            if str_eq(self.entries[i].0.as_str(), lang.as_str()) {
                let mut args: Vec<String> = Vec::new();
                let mut j: usize = 0;
                let base_len = self.entries[i].1.base_args.len();
                while j < base_len
                    invariant
                        j <= base_len,
                        i < self.entries.len(),
                        base_len == self.entries[i as int].1.base_args.len(),
                        args.deep_view() =~= self.entries[i as int].1.base_args.deep_view()
                            .subrange(0, j as int),
                    decreases base_len - j,
                {
                    let ghost prev = args.deep_view();
                    args.push(self.entries[i].1.base_args[j].clone());
                    proof {
                        assert(args.deep_view() =~= prev.push(
                            self.entries[i as int].1.base_args.deep_view()[j as int],
                        ));
                    }
                    j = j + 1;
                }
                proof {
                    assert(args.deep_view() =~= self.entries[i as int].1@.base_args);
                }
                args.push(body.code.clone());
                let inv = Invocation { program: self.entries[i].1.program.clone(), args };
                proof {
                    assert(self.entry_models()[i as int].0 == lang@);
                    assert(inv.args.deep_view() =~= self@[lang@].base_args.push(body.code@));
                }
                return Some(inv);
            }
            i = i + 1;
        }
        None
    }
}

} // verus!
