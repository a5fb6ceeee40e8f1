//! Process-wide ONNX Runtime setup: which files it is loaded from.
//!
//! The DLLs are looked for in `runtime\` beside the executable first (the
//! installed layout), then beside it, then at `ORT_DYLIB_PATH` /
//! `QNN_EP_PATH`, then in the pip packages' site-packages (the dev-machine
//! layout).

use crate::text::{chars_of, order, precedes, texts, Order};
use vstd::prelude::*;

verus! {

/// The plugin EP takes its name from the registration; the options prefix and
/// the device both report it. This is the name the pip package uses.
pub const QNN_EP: &'static str = "QNNExecutionProvider";

/// What was loaded.
pub struct Runtime {
    pub ort_dll: String,
    pub qnn_ep: Option<String>,
    /// A QNN NPU device was enumerated after registering the plugin.
    pub npu: bool,
}

/// What came of loading the runtime: `ort_dll` is where the runtime library
/// was found, `qnn_ep` where the plugin was found and registered, and `device`
/// whether a QNN NPU device was enumerated after that. Without the library
/// there is no runtime, and without the plugin no NPU.
pub fn init(ort_dll: Option<String>, qnn_ep: Option<String>, device: bool) -> (r: Option<Runtime>)
    ensures
        match ort_dll {
            Some(dll) => r == Some(Runtime { ort_dll: dll, qnn_ep, npu: qnn_ep is Some && device }),
            None => r is None,
        },
{
    match ort_dll {
        Some(ort_dll) => {
            let npu: bool = qnn_ep.is_some() && device;
            Some(Runtime { ort_dll, qnn_ep, npu })
        },
        None => None,
    }
}

/// A place where a library may lie.
#[derive(Debug, Clone, Copy, PartialEq, Eq, Structural)]
pub enum Place {
    /// In `runtime` beside the executable.
    RuntimeFolder,
    /// Beside the executable.
    BesideExe,
    /// Where an environment variable points.
    Variable,
    /// In a pip install.
    SitePackages,
}

/// Where a library is taken from: of the places that have it, the first in the
/// order above.
pub fn locate(runtime_folder: bool, beside_exe: bool, variable: bool, site_packages: bool) -> (r:
    Option<Place>)
    ensures
        r == (if runtime_folder {
            Some(Place::RuntimeFolder)
        } else if beside_exe {
            Some(Place::BesideExe)
        } else if variable {
            Some(Place::Variable)
        } else if site_packages {
            Some(Place::SitePackages)
        } else {
            None
        }),
{
    if runtime_folder {
        Some(Place::RuntimeFolder)
    } else if beside_exe {
        Some(Place::BesideExe)
    } else if variable {
        Some(Place::Variable)
    } else if site_packages {
        Some(Place::SitePackages)
    } else {
        None
    }
}

/// Which of several Python installs is used: the one whose name comes last.
pub fn last_install(names: &Vec<String>) -> (r: Option<usize>)
    ensures
        r is None <==> names.len() == 0,
        r matches Some(i) ==> i < names.len() && forall|j: int|
            0 <= j < names.len() ==> !precedes(names@[i as int]@, #[trigger] texts(names@)[j]),
{
    if names.len() == 0 {
        return None;
    }
    let mut best: usize = 0;
    let mut k: usize = 1;
    proof {
        crate::text::lemma_precedes_irreflexive(names@[0]@);
    }
    while k < names.len()
        invariant
            best < k <= names.len(),
            forall|j: int|
                0 <= j < k ==> !precedes(names@[best as int]@, #[trigger] texts(names@)[j]),
        decreases names.len() - k,
    {
        match order(
            chars_of(names[best].as_str()).as_slice(),
            chars_of(names[k].as_str()).as_slice(),
        ) {
            Order::Before => {
                proof {
                    let (a, b) = (names@[best as int]@, names@[k as int]@);
                    assert forall|j: int| 0 <= j < k + 1 implies !precedes(
                        b,
                        #[trigger] texts(names@)[j],
                    ) by {
                        crate::text::lemma_precedes_irreflexive(b);
                        let c = texts(names@)[j];
                        if precedes(b, c) {
                            crate::text::lemma_precedes_transitive(a, b, c);
                        }
                    }
                }
                best = k;
            },
            Order::Same => {
                proof {
                    crate::text::lemma_precedes_irreflexive(names@[best as int]@);
                }
            },
            Order::After => {
                proof {
                    let (a, b) = (names@[best as int]@, names@[k as int]@);
                    if precedes(a, b) {
                        crate::text::lemma_precedes_transitive(a, b, a);
                        crate::text::lemma_precedes_irreflexive(a);
                    }
                }
            },
        }
        k += 1;
    }
    Some(best)
}

} // verus!
