//! The tables of the registry: the curated flags and the built-in presets.
//!
//! Each table stands here twice, once as the statement that contracts refer to and
//! once as the executable value, which is proved to say the same.

use crate::param_registry::{DefSpec, KindSpec, ParamCategory, ParamDef, ParamKind, Preset, PresetSpec, PresetValue, PresetValueSpec, PRESET_COUNT, REGISTRY_LEN};
use vstd::prelude::*;

verus! {

/// The flags of the category `Context`, counted from its first one.
#[verifier::opaque]
pub open spec fn context_flag(i: int) -> DefSpec {
    if i == 0 {
        DefSpec {
            flag: "--ctx-size"@,
            aliases: seq!["-c"@],
            label: "ctx-size"@,
            category: ParamCategory::Context,
            kind: KindSpec::Integer { min: 0, max: 2097152, step: 1024 },
            description: "Prompt context size; 0 = model default"@,
        }
    } else if i == 1 {
        DefSpec {
            flag: "--predict"@,
            aliases: seq!["-n"@, "--n-predict"@],
            label: "predict"@,
            category: ParamCategory::Context,
            kind: KindSpec::Integer { min: -1, max: 2097152, step: 64 },
            description: "Tokens to predict; -1 = infinity"@,
        }
    } else if i == 2 {
        DefSpec {
            flag: "--batch-size"@,
            aliases: seq!["-b"@],
            label: "batch-size"@,
            category: ParamCategory::Context,
            kind: KindSpec::Integer { min: 256, max: 65536, step: 256 },
            description: "Logical maximum batch size"@,
        }
    } else if i == 3 {
        DefSpec {
            flag: "--ubatch-size"@,
            aliases: seq!["-ub"@],
            label: "ubatch-size"@,
            category: ParamCategory::Context,
            kind: KindSpec::Integer { min: 64, max: 16384, step: 64 },
            description: "Physical maximum batch size"@,
        }
    } else if i == 4 {
        DefSpec {
            flag: "--keep"@,
            aliases: Seq::empty(),
            label: "keep"@,
            category: ParamCategory::Context,
            kind: KindSpec::Integer { min: 0, max: 131072, step: 1 },
            description: "Tokens to keep from the initial prompt"@,
        }
    } else if i == 5 {
        DefSpec {
            flag: "--swa-full"@,
            aliases: Seq::empty(),
            label: "swa-full"@,
            category: ParamCategory::Context,
            kind: KindSpec::Toggle,
            description: "Use full-size SWA cache"@,
        }
    } else if i == 6 {
        DefSpec {
            flag: "--flash-attn"@,
            aliases: seq!["-fa"@],
            label: "flash-attn"@,
            category: ParamCategory::Context,
            kind: KindSpec::TriState,
            description: "Flash Attention on/off/auto"@,
        }
    } else if i == 7 {
        DefSpec {
            flag: "--rope-scaling"@,
            aliases: Seq::empty(),
            label: "rope-scaling"@,
            category: ParamCategory::Context,
            kind: KindSpec::Choice(
                seq!["none"@, "linear"@, "yarn"@],
            ),
            description: "RoPE frequency scaling method"@,
        }
    } else if i == 8 {
        DefSpec {
            flag: "--rope-scale"@,
            aliases: Seq::empty(),
            label: "rope-scale"@,
            category: ParamCategory::Context,
            kind: KindSpec::Text,
            description: "RoPE context scaling factor"@,
        }
    } else {
        DefSpec {
            flag: "--rope-freq-base"@,
            aliases: Seq::empty(),
            label: "rope-freq-base"@,
            category: ParamCategory::Context,
            kind: KindSpec::Text,
            description: "RoPE base frequency (NTK-aware scaling)"@,
        }
    }
}

/// The flags of the category `Gpu`, counted from its first one.
#[verifier::opaque]
pub open spec fn gpu_flag(i: int) -> DefSpec {
    if i == 0 {
        DefSpec {
            flag: "--gpu-layers"@,
            aliases: seq!["-ngl"@, "--n-gpu-layers"@],
            label: "gpu-layers"@,
            category: ParamCategory::Gpu,
            kind: KindSpec::Integer { min: 0, max: 999, step: 1 },
            description: "Layers in VRAM; 999 = all"@,
        }
    } else if i == 1 {
        DefSpec {
            flag: "--split-mode"@,
            aliases: seq!["-sm"@],
            label: "split-mode"@,
            category: ParamCategory::Gpu,
            kind: KindSpec::Choice(
                seq!["none"@, "layer"@, "row"@, "tensor"@],
            ),
            description: "Multi-GPU split strategy"@,
        }
    } else if i == 2 {
        DefSpec {
            flag: "--tensor-split"@,
            aliases: seq!["-ts"@],
            label: "tensor-split"@,
            category: ParamCategory::Gpu,
            kind: KindSpec::Text,
            description: "Per-GPU proportions, e.g. 3,1"@,
        }
    } else if i == 3 {
        DefSpec {
            flag: "--main-gpu"@,
            aliases: seq!["-mg"@],
            label: "main-gpu"@,
            category: ParamCategory::Gpu,
            kind: KindSpec::Integer { min: 0, max: 63, step: 1 },
            description: "GPU index for model or intermediate results"@,
        }
    } else if i == 4 {
        DefSpec {
            flag: "--fit"@,
            aliases: Seq::empty(),
            label: "fit"@,
            category: ParamCategory::Gpu,
            kind: KindSpec::TriState,
            description: "Adjust unset args to fit device memory"@,
        }
    } else if i == 5 {
        DefSpec {
            flag: "--fit-target"@,
            aliases: seq!["-fitt"@],
            label: "fit-target"@,
            category: ParamCategory::Gpu,
            kind: KindSpec::Text,
            description: "MiB of VRAM to leave FREE per device"@,
        }
    } else if i == 6 {
        DefSpec {
            flag: "--fit-ctx"@,
            aliases: seq!["-fitc"@],
            label: "fit-ctx"@,
            category: ParamCategory::Gpu,
            kind: KindSpec::Integer { min: 0, max: 2097152, step: 1024 },
            description: "Minimum ctx --fit may set"@,
        }
    } else if i == 7 {
        DefSpec {
            flag: "--override-tensor"@,
            aliases: seq!["-ot"@],
            label: "override-tensor"@,
            category: ParamCategory::Gpu,
            kind: KindSpec::Text,
            description: "Tensor pattern=buffer override, e.g. PLE offload"@,
        }
    } else if i == 8 {
        DefSpec {
            flag: "--cpu-moe"@,
            aliases: seq!["-cmoe"@],
            label: "cpu-moe"@,
            category: ParamCategory::Gpu,
            kind: KindSpec::Toggle,
            description: "Keep all MoE weights on CPU"@,
        }
    } else if i == 9 {
        DefSpec {
            flag: "--n-cpu-moe"@,
            aliases: seq!["-ncmoe"@],
            label: "n-cpu-moe"@,
            category: ParamCategory::Gpu,
            kind: KindSpec::Integer { min: 0, max: 999, step: 1 },
            description: "Keep first N layers of MoE weights on CPU"@,
        }
    } else if i == 10 {
        DefSpec {
            flag: "--device"@,
            aliases: seq!["-dev"@],
            label: "device"@,
            category: ParamCategory::Gpu,
            kind: KindSpec::Text,
            description: "Comma-separated devices for offload"@,
        }
    } else {
        DefSpec {
            flag: "--no-kv-offload"@,
            aliases: seq!["-nkvo"@],
            label: "no-kv-offload"@,
            category: ParamCategory::Gpu,
            kind: KindSpec::Toggle,
            description: "Disable KV cache offloading to GPU"@,
        }
    }
}

/// The data types that the KV cache can hold.
pub open spec fn cache_types() -> Seq<Seq<char>> {
    seq!["f32"@, "f16"@, "bf16"@, "q8_0"@, "q4_0"@, "q4_1"@, "iq4_nl"@, "q5_0"@, "q5_1"@]
}

/// The flags of the category `Cache`, counted from its first one.
#[verifier::opaque]
pub open spec fn cache_flag(i: int) -> DefSpec {
    if i == 0 {
        DefSpec {
            flag: "--cache-type-k"@,
            aliases: seq!["-ctk"@],
            label: "cache-type-k"@,
            category: ParamCategory::Cache,
            kind: KindSpec::Choice(cache_types()),
            description: "KV cache data type for K"@,
        }
    } else {
        DefSpec {
            flag: "--cache-type-v"@,
            aliases: seq!["-ctv"@],
            label: "cache-type-v"@,
            category: ParamCategory::Cache,
            kind: KindSpec::Choice(cache_types()),
            description: "KV cache data type for V"@,
        }
    }
}

/// The flags of the category `Cpu`, counted from its first one.
#[verifier::opaque]
pub open spec fn cpu_flag(i: int) -> DefSpec {
    if i == 0 {
        DefSpec {
            flag: "--threads"@,
            aliases: seq!["-t"@],
            label: "threads"@,
            category: ParamCategory::Cpu,
            kind: KindSpec::Integer { min: 1, max: 256, step: 1 },
            description: "CPU threads for generation"@,
        }
    } else if i == 1 {
        DefSpec {
            flag: "--threads-batch"@,
            aliases: seq!["-tb"@],
            label: "threads-batch"@,
            category: ParamCategory::Cpu,
            kind: KindSpec::Integer { min: 1, max: 256, step: 1 },
            description: "CPU threads for batch/prompt processing"@,
        }
    } else if i == 2 {
        DefSpec {
            flag: "--prio"@,
            aliases: Seq::empty(),
            label: "prio"@,
            category: ParamCategory::Cpu,
            kind: KindSpec::Integer { min: -1, max: 3, step: 1 },
            description: "Process priority: -1 low … 3 realtime"@,
        }
    } else if i == 3 {
        DefSpec {
            flag: "--poll"@,
            aliases: Seq::empty(),
            label: "poll"@,
            category: ParamCategory::Cpu,
            kind: KindSpec::Integer { min: 0, max: 100, step: 1 },
            description: "Polling level to wait for work; 0 = off"@,
        }
    } else if i == 4 {
        DefSpec {
            flag: "--cpu-range"@,
            aliases: seq!["-Cr"@],
            label: "cpu-range"@,
            category: ParamCategory::Cpu,
            kind: KindSpec::Text,
            description: "CPU affinity range (often handled by taskset)"@,
        }
    } else {
        DefSpec {
            flag: "--numa"@,
            aliases: Seq::empty(),
            label: "numa"@,
            category: ParamCategory::Cpu,
            kind: KindSpec::Choice(
                seq!["distribute"@, "isolate"@, "numactl"@],
            ),
            description: "NUMA optimization strategy"@,
        }
    }
}

/// The flags of the category `Load`, counted from its first one.
#[verifier::opaque]
pub open spec fn load_flag(i: int) -> DefSpec {
    if i == 0 {
        DefSpec {
            flag: "--load-mode"@,
            aliases: seq!["-lm"@],
            label: "load-mode"@,
            category: ParamCategory::Load,
            kind: KindSpec::Choice(
                seq!["auto"@, "none"@, "mmap"@, "mlock"@, "mmap+mlock"@, "dio"@],
            ),
            description: "Model loading mode (mmap keeps PLE reads lazy)"@,
        }
    } else if i == 1 {
        DefSpec {
            flag: "--check-tensors"@,
            aliases: Seq::empty(),
            label: "check-tensors"@,
            category: ParamCategory::Load,
            kind: KindSpec::Toggle,
            description: "Validate model tensor data on load"@,
        }
    } else {
        DefSpec {
            flag: "--override-kv"@,
            aliases: Seq::empty(),
            label: "override-kv"@,
            category: ParamCategory::Load,
            kind: KindSpec::Text,
            description: "Model metadata overrides, KEY=TYPE:VALUE,..."@,
        }
    }
}

/// The flags of the category `Sampling`, counted from its first one.
#[verifier::opaque]
pub open spec fn sampling_flag(i: int) -> DefSpec {
    if i == 0 {
        DefSpec {
            flag: "--temp"@,
            aliases: Seq::empty(),
            label: "temp"@,
            category: ParamCategory::Sampling,
            kind: KindSpec::Text,
            description: "Temperature (float, e.g. 1.0)"@,
        }
    } else if i == 1 {
        DefSpec {
            flag: "--top-k"@,
            aliases: Seq::empty(),
            label: "top-k"@,
            category: ParamCategory::Sampling,
            kind: KindSpec::Integer { min: 0, max: 200, step: 1 },
            description: "Top-K sampling"@,
        }
    } else if i == 2 {
        DefSpec {
            flag: "--top-p"@,
            aliases: Seq::empty(),
            label: "top-p"@,
            category: ParamCategory::Sampling,
            kind: KindSpec::Text,
            description: "Top-P sampling (float, e.g. 0.95)"@,
        }
    } else if i == 3 {
        DefSpec {
            flag: "--min-p"@,
            aliases: Seq::empty(),
            label: "min-p"@,
            category: ParamCategory::Sampling,
            kind: KindSpec::Text,
            description: "Min-P sampling (float)"@,
        }
    } else {
        DefSpec {
            flag: "--repeat-penalty"@,
            aliases: Seq::empty(),
            label: "repeat-penalty"@,
            category: ParamCategory::Sampling,
            kind: KindSpec::Text,
            description: "Repeat penalty (float)"@,
        }
    }
}

/// The flags of the category `Server`, counted from its first one.
#[verifier::opaque]
pub open spec fn server_flag(i: int) -> DefSpec {
    if i == 0 {
        DefSpec {
            flag: "--alias"@,
            aliases: Seq::empty(),
            label: "alias"@,
            category: ParamCategory::Server,
            kind: KindSpec::Text,
            description: "Model alias for the API"@,
        }
    } else if i == 1 {
        DefSpec {
            flag: "--host"@,
            aliases: Seq::empty(),
            label: "host"@,
            category: ParamCategory::Server,
            kind: KindSpec::Text,
            description: "Bind address (--port is managed by llama-swap)"@,
        }
    } else if i == 2 {
        DefSpec {
            flag: "--parallel"@,
            aliases: seq!["-np"@],
            label: "parallel"@,
            category: ParamCategory::Server,
            kind: KindSpec::Integer { min: 1, max: 64, step: 1 },
            description: "Number of server slots"@,
        }
    } else if i == 3 {
        DefSpec {
            flag: "--no-cont-batching"@,
            aliases: Seq::empty(),
            label: "no-cont-batching"@,
            category: ParamCategory::Server,
            kind: KindSpec::Toggle,
            description: "Disable continuous batching"@,
        }
    } else if i == 4 {
        DefSpec {
            flag: "--jinja"@,
            aliases: Seq::empty(),
            label: "jinja"@,
            category: ParamCategory::Server,
            kind: KindSpec::Toggle,
            description: "Use the model's Jinja chat template"@,
        }
    } else if i == 5 {
        DefSpec {
            flag: "--no-warmup"@,
            aliases: Seq::empty(),
            label: "no-warmup"@,
            category: ParamCategory::Server,
            kind: KindSpec::Toggle,
            description: "Skip warmup pass at load"@,
        }
    } else if i == 6 {
        DefSpec {
            flag: "--metrics"@,
            aliases: Seq::empty(),
            label: "metrics"@,
            category: ParamCategory::Server,
            kind: KindSpec::Toggle,
            description: "Enable Prometheus /metrics endpoint"@,
        }
    } else if i == 7 {
        DefSpec {
            flag: "--slots"@,
            aliases: Seq::empty(),
            label: "slots"@,
            category: ParamCategory::Server,
            kind: KindSpec::Toggle,
            description: "Enable /slots endpoint"@,
        }
    } else if i == 8 {
        DefSpec {
            flag: "--reasoning-effort"@,
            aliases: Seq::empty(),
            label: "reasoning-effort"@,
            category: ParamCategory::Server,
            kind: KindSpec::Choice(
                seq!["minimal"@, "low"@, "medium"@, "high"@],
            ),
            description: "Default reasoning effort"@,
        }
    } else {
        DefSpec {
            flag: "--reasoning-budget"@,
            aliases: Seq::empty(),
            label: "reasoning-budget"@,
            category: ParamCategory::Server,
            kind: KindSpec::Integer { min: 0, max: 131072, step: 1 },
            description: "Reasoning token budget; 0 = unlimited"@,
        }
    }
}

/// The flag at position `i` of the registry.
pub open spec fn flag_entry(i: int) -> DefSpec {
    if i < 10 {
        context_flag(i)
    } else if i < 22 {
        gpu_flag(i - 10)
    } else if i < 24 {
        cache_flag(i - 22)
    } else if i < 30 {
        cpu_flag(i - 24)
    } else if i < 33 {
        load_flag(i - 30)
    } else if i < 38 {
        sampling_flag(i - 33)
    } else {
        server_flag(i - 38)
    }
}

/// The curated flags, in display order (grouped by category).
pub open spec fn flag_table() -> Seq<DefSpec> {
    Seq::new(REGISTRY_LEN as nat, |i: int| flag_entry(i))
}

fn context_def(index: usize) -> (def: ParamDef)
    requires
        index < 10,
    ensures
        def@ == context_flag(index as int),
{
    let def = match index {
        0 => ParamDef {
            flag: "--ctx-size",
            aliases: &["-c"],
            label: "ctx-size",
            category: ParamCategory::Context,
            kind: ParamKind::Integer { min: 0, max: 2097152, step: 1024 },
            description: "Prompt context size; 0 = model default",
        },
        1 => ParamDef {
            flag: "--predict",
            aliases: &["-n", "--n-predict"],
            label: "predict",
            category: ParamCategory::Context,
            kind: ParamKind::Integer { min: -1, max: 2097152, step: 64 },
            description: "Tokens to predict; -1 = infinity",
        },
        2 => ParamDef {
            flag: "--batch-size",
            aliases: &["-b"],
            label: "batch-size",
            category: ParamCategory::Context,
            kind: ParamKind::Integer { min: 256, max: 65536, step: 256 },
            description: "Logical maximum batch size",
        },
        3 => ParamDef {
            flag: "--ubatch-size",
            aliases: &["-ub"],
            label: "ubatch-size",
            category: ParamCategory::Context,
            kind: ParamKind::Integer { min: 64, max: 16384, step: 64 },
            description: "Physical maximum batch size",
        },
        4 => ParamDef {
            flag: "--keep",
            aliases: &[],
            label: "keep",
            category: ParamCategory::Context,
            kind: ParamKind::Integer { min: 0, max: 131072, step: 1 },
            description: "Tokens to keep from the initial prompt",
        },
        5 => ParamDef {
            flag: "--swa-full",
            aliases: &[],
            label: "swa-full",
            category: ParamCategory::Context,
            kind: ParamKind::Toggle,
            description: "Use full-size SWA cache",
        },
        6 => ParamDef {
            flag: "--flash-attn",
            aliases: &["-fa"],
            label: "flash-attn",
            category: ParamCategory::Context,
            kind: ParamKind::TriState,
            description: "Flash Attention on/off/auto",
        },
        7 => ParamDef {
            flag: "--rope-scaling",
            aliases: &[],
            label: "rope-scaling",
            category: ParamCategory::Context,
            kind: ParamKind::Choice(
                &["none", "linear", "yarn"],
            ),
            description: "RoPE frequency scaling method",
        },
        8 => ParamDef {
            flag: "--rope-scale",
            aliases: &[],
            label: "rope-scale",
            category: ParamCategory::Context,
            kind: ParamKind::Text,
            description: "RoPE context scaling factor",
        },
        _ => ParamDef {
            flag: "--rope-freq-base",
            aliases: &[],
            label: "rope-freq-base",
            category: ParamCategory::Context,
            kind: ParamKind::Text,
            description: "RoPE base frequency (NTK-aware scaling)",
        },
    };
    proof {
        reveal(context_flag);
    }
    assert(def@.aliases =~= context_flag(index as int).aliases);
    assert(def@.kind is Choice ==> def@.kind->0 =~= context_flag(index as int).kind->0);
    def
}

fn gpu_def(index: usize) -> (def: ParamDef)
    requires
        index < 12,
    ensures
        def@ == gpu_flag(index as int),
{
    let def = match index {
        0 => ParamDef {
            flag: "--gpu-layers",
            aliases: &["-ngl", "--n-gpu-layers"],
            label: "gpu-layers",
            category: ParamCategory::Gpu,
            kind: ParamKind::Integer { min: 0, max: 999, step: 1 },
            description: "Layers in VRAM; 999 = all",
        },
        1 => ParamDef {
            flag: "--split-mode",
            aliases: &["-sm"],
            label: "split-mode",
            category: ParamCategory::Gpu,
            kind: ParamKind::Choice(
                &["none", "layer", "row", "tensor"],
            ),
            description: "Multi-GPU split strategy",
        },
        2 => ParamDef {
            flag: "--tensor-split",
            aliases: &["-ts"],
            label: "tensor-split",
            category: ParamCategory::Gpu,
            kind: ParamKind::Text,
            description: "Per-GPU proportions, e.g. 3,1",
        },
        3 => ParamDef {
            flag: "--main-gpu",
            aliases: &["-mg"],
            label: "main-gpu",
            category: ParamCategory::Gpu,
            kind: ParamKind::Integer { min: 0, max: 63, step: 1 },
            description: "GPU index for model or intermediate results",
        },
        4 => ParamDef {
            flag: "--fit",
            aliases: &[],
            label: "fit",
            category: ParamCategory::Gpu,
            kind: ParamKind::TriState,
            description: "Adjust unset args to fit device memory",
        },
        5 => ParamDef {
            flag: "--fit-target",
            aliases: &["-fitt"],
            label: "fit-target",
            category: ParamCategory::Gpu,
            kind: ParamKind::Text,
            description: "MiB of VRAM to leave FREE per device",
        },
        6 => ParamDef {
            flag: "--fit-ctx",
            aliases: &["-fitc"],
            label: "fit-ctx",
            category: ParamCategory::Gpu,
            kind: ParamKind::Integer { min: 0, max: 2097152, step: 1024 },
            description: "Minimum ctx --fit may set",
        },
        7 => ParamDef {
            flag: "--override-tensor",
            aliases: &["-ot"],
            label: "override-tensor",
            category: ParamCategory::Gpu,
            kind: ParamKind::Text,
            description: "Tensor pattern=buffer override, e.g. PLE offload",
        },
        8 => ParamDef {
            flag: "--cpu-moe",
            aliases: &["-cmoe"],
            label: "cpu-moe",
            category: ParamCategory::Gpu,
            kind: ParamKind::Toggle,
            description: "Keep all MoE weights on CPU",
        },
        9 => ParamDef {
            flag: "--n-cpu-moe",
            aliases: &["-ncmoe"],
            label: "n-cpu-moe",
            category: ParamCategory::Gpu,
            kind: ParamKind::Integer { min: 0, max: 999, step: 1 },
            description: "Keep first N layers of MoE weights on CPU",
        },
        10 => ParamDef {
            flag: "--device",
            aliases: &["-dev"],
            label: "device",
            category: ParamCategory::Gpu,
            kind: ParamKind::Text,
            description: "Comma-separated devices for offload",
        },
        _ => ParamDef {
            flag: "--no-kv-offload",
            aliases: &["-nkvo"],
            label: "no-kv-offload",
            category: ParamCategory::Gpu,
            kind: ParamKind::Toggle,
            description: "Disable KV cache offloading to GPU",
        },
    };
    proof {
        reveal(gpu_flag);
    }
    assert(def@.aliases =~= gpu_flag(index as int).aliases);
    assert(def@.kind is Choice ==> def@.kind->0 =~= gpu_flag(index as int).kind->0);
    def
}

fn cache_def(index: usize) -> (def: ParamDef)
    requires
        index < 2,
    ensures
        def@ == cache_flag(index as int),
{
    let def = match index {
        0 => ParamDef {
            flag: "--cache-type-k",
            aliases: &["-ctk"],
            label: "cache-type-k",
            category: ParamCategory::Cache,
            kind: ParamKind::Choice(
                &["f32", "f16", "bf16", "q8_0", "q4_0", "q4_1", "iq4_nl", "q5_0", "q5_1"],
            ),
            description: "KV cache data type for K",
        },
        _ => ParamDef {
            flag: "--cache-type-v",
            aliases: &["-ctv"],
            label: "cache-type-v",
            category: ParamCategory::Cache,
            kind: ParamKind::Choice(
                &["f32", "f16", "bf16", "q8_0", "q4_0", "q4_1", "iq4_nl", "q5_0", "q5_1"],
            ),
            description: "KV cache data type for V",
        },
    };
    proof {
        reveal(cache_flag);
    }
    assert(def@.aliases =~= cache_flag(index as int).aliases);
    assert(def@.kind is Choice ==> def@.kind->0 =~= cache_flag(index as int).kind->0);
    def
}

fn cpu_def(index: usize) -> (def: ParamDef)
    requires
        index < 6,
    ensures
        def@ == cpu_flag(index as int),
{
    let def = match index {
        0 => ParamDef {
            flag: "--threads",
            aliases: &["-t"],
            label: "threads",
            category: ParamCategory::Cpu,
            kind: ParamKind::Integer { min: 1, max: 256, step: 1 },
            description: "CPU threads for generation",
        },
        1 => ParamDef {
            flag: "--threads-batch",
            aliases: &["-tb"],
            label: "threads-batch",
            category: ParamCategory::Cpu,
            kind: ParamKind::Integer { min: 1, max: 256, step: 1 },
            description: "CPU threads for batch/prompt processing",
        },
        2 => ParamDef {
            flag: "--prio",
            aliases: &[],
            label: "prio",
            category: ParamCategory::Cpu,
            kind: ParamKind::Integer { min: -1, max: 3, step: 1 },
            description: "Process priority: -1 low … 3 realtime",
        },
        3 => ParamDef {
            flag: "--poll",
            aliases: &[],
            label: "poll",
            category: ParamCategory::Cpu,
            kind: ParamKind::Integer { min: 0, max: 100, step: 1 },
            description: "Polling level to wait for work; 0 = off",
        },
        4 => ParamDef {
            flag: "--cpu-range",
            aliases: &["-Cr"],
            label: "cpu-range",
            category: ParamCategory::Cpu,
            kind: ParamKind::Text,
            description: "CPU affinity range (often handled by taskset)",
        },
        _ => ParamDef {
            flag: "--numa",
            aliases: &[],
            label: "numa",
            category: ParamCategory::Cpu,
            kind: ParamKind::Choice(
                &["distribute", "isolate", "numactl"],
            ),
            description: "NUMA optimization strategy",
        },
    };
    proof {
        reveal(cpu_flag);
    }
    assert(def@.aliases =~= cpu_flag(index as int).aliases);
    assert(def@.kind is Choice ==> def@.kind->0 =~= cpu_flag(index as int).kind->0);
    def
}

fn load_def(index: usize) -> (def: ParamDef)
    requires
        index < 3,
    ensures
        def@ == load_flag(index as int),
{
    let def = match index {
        0 => ParamDef {
            flag: "--load-mode",
            aliases: &["-lm"],
            label: "load-mode",
            category: ParamCategory::Load,
            kind: ParamKind::Choice(
                &["auto", "none", "mmap", "mlock", "mmap+mlock", "dio"],
            ),
            description: "Model loading mode (mmap keeps PLE reads lazy)",
        },
        1 => ParamDef {
            flag: "--check-tensors",
            aliases: &[],
            label: "check-tensors",
            category: ParamCategory::Load,
            kind: ParamKind::Toggle,
            description: "Validate model tensor data on load",
        },
        _ => ParamDef {
            flag: "--override-kv",
            aliases: &[],
            label: "override-kv",
            category: ParamCategory::Load,
            kind: ParamKind::Text,
            description: "Model metadata overrides, KEY=TYPE:VALUE,...",
        },
    };
    proof {
        reveal(load_flag);
    }
    assert(def@.aliases =~= load_flag(index as int).aliases);
    assert(def@.kind is Choice ==> def@.kind->0 =~= load_flag(index as int).kind->0);
    def
}

fn sampling_def(index: usize) -> (def: ParamDef)
    requires
        index < 5,
    ensures
        def@ == sampling_flag(index as int),
{
    let def = match index {
        0 => ParamDef {
            flag: "--temp",
            aliases: &[],
            label: "temp",
            category: ParamCategory::Sampling,
            kind: ParamKind::Text,
            description: "Temperature (float, e.g. 1.0)",
        },
        1 => ParamDef {
            flag: "--top-k",
            aliases: &[],
            label: "top-k",
            category: ParamCategory::Sampling,
            kind: ParamKind::Integer { min: 0, max: 200, step: 1 },
            description: "Top-K sampling",
        },
        2 => ParamDef {
            flag: "--top-p",
            aliases: &[],
            label: "top-p",
            category: ParamCategory::Sampling,
            kind: ParamKind::Text,
            description: "Top-P sampling (float, e.g. 0.95)",
        },
        3 => ParamDef {
            flag: "--min-p",
            aliases: &[],
            label: "min-p",
            category: ParamCategory::Sampling,
            kind: ParamKind::Text,
            description: "Min-P sampling (float)",
        },
        _ => ParamDef {
            flag: "--repeat-penalty",
            aliases: &[],
            label: "repeat-penalty",
            category: ParamCategory::Sampling,
            kind: ParamKind::Text,
            description: "Repeat penalty (float)",
        },
    };
    proof {
        reveal(sampling_flag);
    }
    assert(def@.aliases =~= sampling_flag(index as int).aliases);
    def
}

fn server_def(index: usize) -> (def: ParamDef)
    requires
        index < 10,
    ensures
        def@ == server_flag(index as int),
{
    let def = match index {
        0 => ParamDef {
            flag: "--alias",
            aliases: &[],
            label: "alias",
            category: ParamCategory::Server,
            kind: ParamKind::Text,
            description: "Model alias for the API",
        },
        1 => ParamDef {
            flag: "--host",
            aliases: &[],
            label: "host",
            category: ParamCategory::Server,
            kind: ParamKind::Text,
            description: "Bind address (--port is managed by llama-swap)",
        },
        2 => ParamDef {
            flag: "--parallel",
            aliases: &["-np"],
            label: "parallel",
            category: ParamCategory::Server,
            kind: ParamKind::Integer { min: 1, max: 64, step: 1 },
            description: "Number of server slots",
        },
        3 => ParamDef {
            flag: "--no-cont-batching",
            aliases: &[],
            label: "no-cont-batching",
            category: ParamCategory::Server,
            kind: ParamKind::Toggle,
            description: "Disable continuous batching",
        },
        4 => ParamDef {
            flag: "--jinja",
            aliases: &[],
            label: "jinja",
            category: ParamCategory::Server,
            kind: ParamKind::Toggle,
            description: "Use the model's Jinja chat template",
        },
        5 => ParamDef {
            flag: "--no-warmup",
            aliases: &[],
            label: "no-warmup",
            category: ParamCategory::Server,
            kind: ParamKind::Toggle,
            description: "Skip warmup pass at load",
        },
        6 => ParamDef {
            flag: "--metrics",
            aliases: &[],
            label: "metrics",
            category: ParamCategory::Server,
            kind: ParamKind::Toggle,
            description: "Enable Prometheus /metrics endpoint",
        },
        7 => ParamDef {
            flag: "--slots",
            aliases: &[],
            label: "slots",
            category: ParamCategory::Server,
            kind: ParamKind::Toggle,
            description: "Enable /slots endpoint",
        },
        8 => ParamDef {
            flag: "--reasoning-effort",
            aliases: &[],
            label: "reasoning-effort",
            category: ParamCategory::Server,
            kind: ParamKind::Choice(
                &["minimal", "low", "medium", "high"],
            ),
            description: "Default reasoning effort",
        },
        _ => ParamDef {
            flag: "--reasoning-budget",
            aliases: &[],
            label: "reasoning-budget",
            category: ParamCategory::Server,
            kind: ParamKind::Integer { min: 0, max: 131072, step: 1 },
            description: "Reasoning token budget; 0 = unlimited",
        },
    };
    proof {
        reveal(server_flag);
    }
    assert(def@.aliases =~= server_flag(index as int).aliases);
    assert(def@.kind is Choice ==> def@.kind->0 =~= server_flag(index as int).kind->0);
    def
}

/// The flag at position `index` of the registry.
pub fn registry_def(index: usize) -> (def: ParamDef)
    requires
        index < REGISTRY_LEN,
    ensures
        def@ == flag_table()[index as int],
{
    if index < 10 {
        context_def(index)
    } else if index < 22 {
        gpu_def(index - 10)
    } else if index < 24 {
        cache_def(index - 22)
    } else if index < 30 {
        cpu_def(index - 24)
    } else if index < 33 {
        load_def(index - 30)
    } else if index < 38 {
        sampling_def(index - 33)
    } else {
        server_def(index - 38)
    }
}

/// The preset at position `i`.
#[verifier::opaque]
pub open spec fn preset_at(i: int) -> PresetSpec {
    if i == 0 {
        PresetSpec {
            name: "12 GB full-VRAM (house)"@,
            description: "qwen4exp house baseline: 64k ctx, q8 KV, flash-attn, fit on"@,
            values: seq![
                ("--ctx-size"@, PresetValueSpec::Int(65_536)),
                ("--gpu-layers"@, PresetValueSpec::Int(999)),
                ("--flash-attn"@, PresetValueSpec::On),
                ("--fit"@, PresetValueSpec::On),
                ("--fit-ctx"@, PresetValueSpec::Int(4_096)),
                ("--cache-type-k"@, PresetValueSpec::Opt("q8_0"@)),
                ("--cache-type-v"@, PresetValueSpec::Opt("q8_0"@)),
                ("--batch-size"@, PresetValueSpec::Int(4_096)),
                ("--ubatch-size"@, PresetValueSpec::Int(1_024)),
                ("--parallel"@, PresetValueSpec::Int(1)),
                ("--jinja"@, PresetValueSpec::On),
            ],
        }
    } else if i == 1 {
        PresetSpec {
            name: "PLE on SSD (unsloth quant)"@,
            description: "Token-embd table offloaded to CPU with lazy mmap reads"@,
            values: seq![
                ("--override-tensor"@, PresetValueSpec::Text("per_layer_token_embd\\.weight=CPU"@)),
                ("--load-mode"@, PresetValueSpec::Opt("mmap"@)),
                ("--fit"@, PresetValueSpec::On),
                ("--flash-attn"@, PresetValueSpec::On),
            ],
        }
    } else if i == 2 {
        PresetSpec {
            name: "MoE hybrid (n-cpu-moe ladder)"@,
            description: "Experts on CPU, attention on GPU; tune n-cpu-moe to fit"@,
            values: seq![
                ("--gpu-layers"@, PresetValueSpec::Int(999)),
                ("--n-cpu-moe"@, PresetValueSpec::Int(8)),
                ("--flash-attn"@, PresetValueSpec::On),
                ("--fit"@, PresetValueSpec::On),
            ],
        }
    } else {
        PresetSpec {
            name: "Bench (max VRAM, cold)"@,
            description: "Bench ladder start: fit off, all layers pinned, no warmup"@,
            values: seq![
                ("--ctx-size"@, PresetValueSpec::Int(65_536)),
                ("--gpu-layers"@, PresetValueSpec::Int(999)),
                ("--fit"@, PresetValueSpec::Off),
                ("--flash-attn"@, PresetValueSpec::On),
                ("--no-warmup"@, PresetValueSpec::On),
                ("--metrics"@, PresetValueSpec::On),
            ],
        }
    }
}

/// The built-in presets, in display order.
pub open spec fn preset_table() -> Seq<PresetSpec> {
    Seq::new(PRESET_COUNT as nat, |i: int| preset_at(i))
}

/// The preset at position `index`.
pub fn preset_entry(index: usize) -> (preset: Preset)
    requires
        index < PRESET_COUNT,
    ensures
        preset@ == preset_table()[index as int],
{
    let preset = match index {
        0 => Preset {
            name: "12 GB full-VRAM (house)",
            description: "qwen4exp house baseline: 64k ctx, q8 KV, flash-attn, fit on",
            values: &[
                ("--ctx-size", PresetValue::Int(65_536)),
                ("--gpu-layers", PresetValue::Int(999)),
                ("--flash-attn", PresetValue::On),
                ("--fit", PresetValue::On),
                ("--fit-ctx", PresetValue::Int(4_096)),
                ("--cache-type-k", PresetValue::Opt("q8_0")),
                ("--cache-type-v", PresetValue::Opt("q8_0")),
                ("--batch-size", PresetValue::Int(4_096)),
                ("--ubatch-size", PresetValue::Int(1_024)),
                ("--parallel", PresetValue::Int(1)),
                ("--jinja", PresetValue::On),
            ],
        },
        1 => Preset {
            name: "PLE on SSD (unsloth quant)",
            description: "Token-embd table offloaded to CPU with lazy mmap reads",
            values: &[
                ("--override-tensor", PresetValue::Text("per_layer_token_embd\\.weight=CPU")),
                ("--load-mode", PresetValue::Opt("mmap")),
                ("--fit", PresetValue::On),
                ("--flash-attn", PresetValue::On),
            ],
        },
        2 => Preset {
            name: "MoE hybrid (n-cpu-moe ladder)",
            description: "Experts on CPU, attention on GPU; tune n-cpu-moe to fit",
            values: &[
                ("--gpu-layers", PresetValue::Int(999)),
                ("--n-cpu-moe", PresetValue::Int(8)),
                ("--flash-attn", PresetValue::On),
                ("--fit", PresetValue::On),
            ],
        },
        _ => Preset {
            name: "Bench (max VRAM, cold)",
            description: "Bench ladder start: fit off, all layers pinned, no warmup",
            values: &[
                ("--ctx-size", PresetValue::Int(65_536)),
                ("--gpu-layers", PresetValue::Int(999)),
                ("--fit", PresetValue::Off),
                ("--flash-attn", PresetValue::On),
                ("--no-warmup", PresetValue::On),
                ("--metrics", PresetValue::On),
            ],
        },
    };
    proof {
        reveal(preset_at);
    }
    assert(preset@.values =~= preset_at(index as int).values);
    preset
}

} // verus!
