//! Derivations, and the grammar of the files that hold them.

use vstd::prelude::*;
use vstd::string::*;

use crate::text::same_text;

verus! {

/// One declared output of a derivation.
#[derive(Debug, PartialEq, Eq)]
pub struct DrvOutput {
    pub key: String,
    pub path: String,
    pub hash_algo: String,
    pub hash: String,
}

/// A reference to another derivation, and the outputs needed of it.
#[derive(Debug, PartialEq, Eq)]
pub struct InputDrv {
    pub path: String,
    pub outputs: Vec<String>,
}

/// A decoded derivation.
#[derive(Debug, PartialEq, Eq)]
pub struct Drv {
    pub outputs: Vec<DrvOutput>,
    pub input_drvs: Vec<InputDrv>,
    pub input_srcs: Vec<String>,
    pub platform: String,
    pub builder: String,
    pub builder_args: Vec<String>,
    pub env: Vec<(String, String)>,
}

/// What a [`DrvOutput`] holds.
pub struct DrvOutputView {
    pub key: Seq<char>,
    pub path: Seq<char>,
    pub hash_algo: Seq<char>,
    pub hash: Seq<char>,
}

/// What an [`InputDrv`] holds.
pub struct InputDrvView {
    pub path: Seq<char>,
    pub outputs: Seq<Seq<char>>,
}

/// What a [`Drv`] holds.
pub struct DrvView {
    pub outputs: Seq<DrvOutputView>,
    pub input_drvs: Seq<InputDrvView>,
    pub input_srcs: Seq<Seq<char>>,
    pub platform: Seq<char>,
    pub builder: Seq<char>,
    pub builder_args: Seq<Seq<char>>,
    pub env: Seq<(Seq<char>, Seq<char>)>,
}

impl DeepView for DrvOutput {
    type V = DrvOutputView;

    open spec fn deep_view(&self) -> DrvOutputView {
        DrvOutputView {
            key: self.key@,
            path: self.path@,
            hash_algo: self.hash_algo@,
            hash: self.hash@,
        }
    }
}

impl View for DrvOutput {
    type V = DrvOutputView;

    open spec fn view(&self) -> DrvOutputView {
        self.deep_view()
    }
}

impl DeepView for InputDrv {
    type V = InputDrvView;

    open spec fn deep_view(&self) -> InputDrvView {
        InputDrvView { path: self.path@, outputs: self.outputs.deep_view() }
    }
}

impl View for InputDrv {
    type V = InputDrvView;

    open spec fn view(&self) -> InputDrvView {
        self.deep_view()
    }
}

impl DeepView for Drv {
    type V = DrvView;

    open spec fn deep_view(&self) -> DrvView {
        DrvView {
            outputs: self.outputs.deep_view(),
            input_drvs: self.input_drvs.deep_view(),
            input_srcs: self.input_srcs.deep_view(),
            platform: self.platform@,
            builder: self.builder@,
            builder_args: self.builder_args.deep_view(),
            env: self.env.deep_view(),
        }
    }
}

impl View for Drv {
    type V = DrvView;

    open spec fn view(&self) -> DrvView {
        self.deep_view()
    }
}

/// A copy of a list of strings.
pub fn clone_strings(list: &Vec<String>) -> (copy: Vec<String>)
    ensures
        copy.deep_view() == list.deep_view(),
{
    let mut copy: Vec<String> = Vec::new();
    let mut i: usize = 0;
    while i < list.len()
        invariant
            i <= list.len(),
            copy.len() == i,
            forall|k: int| 0 <= k < i ==> copy@[k]@ == list@[k]@,
        decreases list.len() - i,
    {
        copy.push(list[i].clone());
        i += 1;
    }
    assert(copy.deep_view() =~= list.deep_view());
    copy
}

impl Clone for DrvOutput {
    fn clone(&self) -> (copy: Self)
        ensures
            copy@ == self@,
    {
        DrvOutput {
            key: self.key.clone(),
            path: self.path.clone(),
            hash_algo: self.hash_algo.clone(),
            hash: self.hash.clone(),
        }
    }
}

impl Clone for InputDrv {
    fn clone(&self) -> (copy: Self)
        ensures
            copy@ == self@,
    {
        InputDrv { path: self.path.clone(), outputs: clone_strings(&self.outputs) }
    }
}

impl Clone for Drv {
    fn clone(&self) -> (copy: Self)
        ensures
            copy@ == self@,
    {
        let mut outputs: Vec<DrvOutput> = Vec::new();
        let mut i: usize = 0;
        while i < self.outputs.len()
            invariant
                i <= self.outputs.len(),
                outputs.len() == i,
                forall|k: int| 0 <= k < i ==> outputs@[k]@ == self.outputs@[k]@,
            decreases self.outputs.len() - i,
        {
            outputs.push(self.outputs[i].clone());
            i += 1;
        }
        let mut input_drvs: Vec<InputDrv> = Vec::new();
        let mut i: usize = 0;
        while i < self.input_drvs.len()
            invariant
                i <= self.input_drvs.len(),
                input_drvs.len() == i,
                forall|k: int| 0 <= k < i ==> input_drvs@[k]@ == self.input_drvs@[k]@,
            decreases self.input_drvs.len() - i,
        {
            input_drvs.push(self.input_drvs[i].clone());
            i += 1;
        }
        let mut env: Vec<(String, String)> = Vec::new();
        let mut i: usize = 0;
        while i < self.env.len()
            invariant
                i <= self.env.len(),
                env.len() == i,
                forall|k: int| 0 <= k < i ==> env@[k].deep_view() == self.env@[k].deep_view(),
            decreases self.env.len() - i,
        {
            env.push((self.env[i].0.clone(), self.env[i].1.clone()));
            i += 1;
        }
        let copy = Drv {
            outputs,
            input_drvs,
            input_srcs: clone_strings(&self.input_srcs),
            platform: self.platform.clone(),
            builder: self.builder.clone(),
            builder_args: clone_strings(&self.builder_args),
            env,
        };
        assert(copy.outputs.deep_view() =~= self.outputs.deep_view());
        assert(copy.input_drvs.deep_view() =~= self.input_drvs.deep_view());
        assert(copy.env.deep_view() =~= self.env.deep_view());
        copy
    }
}

/// The name that a derivation has when its environment gives it none.
pub open spec fn unknown_name() -> Seq<char> {
    "unknown"@
}

/// The key under which a derivation's environment holds its name.
pub open spec fn name_key() -> Seq<char> {
    "name"@
}

impl DrvView {
    /// The position of the first pair of the environment under `key`.
    pub open spec fn env_index(self, key: Seq<char>) -> Option<int> {
        if exists|i: int| 0 <= i < self.env.len() && self.env[i].0 == key {
            Some(
                choose|i: int|
                    0 <= i < self.env.len() && self.env[i].0 == key && forall|j: int|
                        0 <= j < i ==> self.env[j].0 != key,
            )
        } else {
            None
        }
    }

    /// The name of the derivation: the value of the first pair of its
    /// environment whose key is `name`, or `unknown` without one.
    pub open spec fn name(self) -> Seq<char> {
        match self.env_index(name_key()) {
            Some(i) => self.env[i].1,
            None => unknown_name(),
        }
    }

    /// The position of the first output under `key`.
    pub open spec fn output_index(self, key: Seq<char>) -> Option<int> {
        if exists|i: int| 0 <= i < self.outputs.len() && self.outputs[i].key == key {
            Some(
                choose|i: int|
                    0 <= i < self.outputs.len() && self.outputs[i].key == key && forall|j: int|
                        0 <= j < i ==> self.outputs[j].key != key,
            )
        } else {
            None
        }
    }

    /// The first output under `key`.
    pub open spec fn output(self, key: Seq<char>) -> Option<DrvOutputView> {
        match self.output_index(key) {
            Some(i) => Some(self.outputs[i]),
            None => None,
        }
    }
}

impl Drv {
    /// The name of the derivation, as its environment gives it.
    pub fn find_name(&self) -> (name: String)
        ensures
            name@ == self@.name(),
    {
        let mut i: usize = 0;
        while i < self.env.len()
            invariant
                i <= self.env.len(),
                forall|j: int| 0 <= j < i ==> self@.env[j].0 != name_key(),
            decreases self.env.len() - i,
        {
            if same_text(self.env[i].0.as_str(), "name") {
                assert(self@.env[i as int].0 == name_key());
                assert(self@.env_index(name_key()) == Some(i as int));
                return self.env[i].1.clone();
            }
            i += 1;
        }
        "unknown".to_owned()
    }

    /// The first output under `key`.
    pub fn find_output(&self, key: &str) -> (found: Option<&DrvOutput>)
        ensures
            match found {
                Some(output) => self@.output(key@) == Some(output@),
                None => self@.output(key@) is None,
            },
    {
        let mut i: usize = 0;
        while i < self.outputs.len()
            invariant
                i <= self.outputs.len(),
                forall|j: int| 0 <= j < i ==> self@.outputs[j].key != key@,
            decreases self.outputs.len() - i,
        {
            if same_text(self.outputs[i].key.as_str(), key) {
                assert(self@.outputs[i as int].key == key@);
                assert(self@.output_index(key@) == Some(i as int));
                return Some(&self.outputs[i]);
            }
            i += 1;
        }
        None
    }
}

} // verus!
