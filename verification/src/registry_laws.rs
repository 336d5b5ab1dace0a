//! What holds of the registry and the presets as a whole.

use crate::param_registry;
use crate::param_registry::{DefSpec, KindSpec, ParamCategory, PresetValueSpec, PRESET_COUNT, REGISTRY_LEN};
use crate::registry_table;
use crate::text;
use vstd::prelude::*;

verus! {

/// The spelling `a` of a flag: its long form, then its aliases.
pub open spec fn spelling(def: DefSpec, a: int) -> Seq<char> {
    if a == 0 {
        def.flag
    } else {
        def.aliases[a - 1]
    }
}

/// Whether `c` stands for itself on a command line: neither white space nor a quote,
/// nor the sign that separates a flag from its value.
pub open spec fn is_plain_char(c: char) -> bool {
    !text::is_white(c) && c != '"' && c != '\'' && c != '='
}

/// Whether every character of `s` stands for itself on a command line.
pub open spec fn is_plain(s: Seq<char>) -> bool {
    s.len() > 0 && forall|k: int| 0 <= k < s.len() ==> is_plain_char(#[trigger] s[k])
}

/// Whether the options of a choice are usable, do not look like flags, and can be told
/// apart.
pub open spec fn options_ok(options: Seq<Seq<char>>) -> bool {
    &&& options.len() > 0
    &&& forall|k: int|
        0 <= k < options.len() ==> is_plain(#[trigger] options[k]) && options[k][0] != '-'
    &&& forall|j: int, k: int|
        0 <= j < k < options.len() ==> #[trigger] options[j] != #[trigger] options[k]
}

/// Whether one entry of the registry is well formed.
pub open spec fn def_ok(def: DefSpec) -> bool {
    &&& text::starts_with(def.flag, "--"@)
    &&& forall|k: int|
        0 <= k < def.aliases.len() ==> text::starts_with_char(#[trigger] def.aliases[k], '-')
    &&& forall|a: int|
        0 <= a <= def.aliases.len() ==> is_plain(#[trigger] spelling(def, a)) && spelling(
            def,
            a,
        ).len() >= 2
    &&& def.label.len() > 0
    &&& def.description.len() > 0
    &&& match def.kind {
        KindSpec::Integer { min, max, step } => i64::MIN <= min <= max <= i64::MAX && step > 0,
        KindSpec::Choice(options) => options_ok(options),
        _ => true,
    }
}

/// A number that tells the spellings of the registry apart: three times the position
/// of the flag, plus the position of the spelling. It looks at a few characters only.
spec fn spelling_number(s: Seq<char>) -> int {
    if s.len() >= 8 {
        if s[3] >= 'i' {
            if s[3] >= 'p' {
                if s.len() >= 11 {
                    if s.len() >= 13 {
                        if s.len() >= 14 {
                            51
                        } else {
                            96
                        }
                    } else {
                        if s.len() >= 12 {
                            if s[2] >= 's' {
                                33
                            } else {
                                30
                            }
                        } else {
                            84
                        }
                    }
                } else {
                    if s.len() >= 10 {
                        if s[2] >= 's' {
                            15
                        } else {
                            0
                        }
                    } else {
                        if s[2] >= 'p' {
                            3
                        } else {
                            54
                        }
                    }
                }
            } else {
                if s[4] >= 'p' {
                    if s.len() >= 13 {
                        if s.len() >= 15 {
                            27
                        } else {
                            21
                        }
                    } else {
                        if s.len() >= 10 {
                            if s[2] >= 'r' {
                                24
                            } else {
                                45
                            }
                        } else {
                            48
                        }
                    }
                } else {
                    if s.len() >= 12 {
                        if s.len() >= 13 {
                            if s.len() >= 16 {
                                123
                            } else {
                                63
                            }
                        } else {
                            18
                        }
                    } else {
                        if s[2] >= 'n' {
                            129
                        } else {
                            90
                        }
                    }
                }
            }
        } else {
            if s.len() >= 14 {
                if s.len() >= 15 {
                    if s.len() >= 16 {
                        if s.len() >= 17 {
                            if s[12] >= 'e' {
                                138
                            } else {
                                141
                            }
                        } else {
                            111
                        }
                    } else {
                        if s[2] >= 't' {
                            75
                        } else {
                            93
                        }
                    }
                } else {
                    if s[2] >= 'n' {
                        if s[2] >= 't' {
                            36
                        } else {
                            32
                        }
                    } else {
                        if s[13] >= 'v' {
                            69
                        } else {
                            66
                        }
                    }
                }
            } else {
                if s.len() >= 11 {
                    if s.len() >= 12 {
                        if s.len() >= 13 {
                            9
                        } else {
                            6
                        }
                    } else {
                        if s[4] >= 'p' {
                            5
                        } else {
                            57
                        }
                    }
                } else {
                    if s.len() >= 10 {
                        if s[2] >= 'p' {
                            120
                        } else {
                            39
                        }
                    } else {
                        if s.len() >= 9 {
                            if s[2] >= 't' {
                                72
                            } else {
                                132
                            }
                        } else {
                            60
                        }
                    }
                }
            }
        }
    } else {
        if s.len() >= 5 {
            if s[2] >= 'm' {
                if s.len() >= 7 {
                    if s[2] >= 't' {
                        if s[6] >= 'p' {
                            105
                        } else {
                            102
                        }
                    } else {
                        if s[2] >= 's' {
                            135
                        } else {
                            108
                        }
                    }
                } else {
                    if s[2] >= 'p' {
                        if s[2] >= 't' {
                            99
                        } else {
                            if s[3] >= 'r' {
                                78
                            } else {
                                81
                            }
                        }
                    } else {
                        if s.len() >= 6 {
                            87
                        } else {
                            55
                        }
                    }
                }
            } else {
                if s.len() >= 6 {
                    if s.len() >= 7 {
                        if s[2] >= 'j' {
                            126
                        } else {
                            114
                        }
                    } else {
                        if s[1] >= 'n' {
                            58
                        } else {
                            if s[2] >= 'k' {
                                12
                            } else {
                                117
                            }
                        }
                    }
                } else {
                    if s[4] >= 't' {
                        if s[1] >= 'f' {
                            46
                        } else {
                            42
                        }
                    } else {
                        if s[1] >= 'n' {
                            64
                        } else {
                            49
                        }
                    }
                }
            }
        } else {
            if s[1] >= 'n' {
                if s[1] >= 's' {
                    if s.len() >= 3 {
                        if s[2] >= 'm' {
                            if s[1] >= 't' {
                                37
                            } else {
                                34
                            }
                        } else {
                            if s[1] >= 'u' {
                                10
                            } else {
                                76
                            }
                        }
                    } else {
                        73
                    }
                } else {
                    if s.len() >= 3 {
                        if s.len() >= 4 {
                            31
                        } else {
                            if s[1] >= 'o' {
                                52
                            } else {
                                121
                            }
                        }
                    } else {
                        4
                    }
                }
            } else {
                if s[1] >= 'd' {
                    if s[1] >= 'l' {
                        if s[1] >= 'm' {
                            40
                        } else {
                            91
                        }
                    } else {
                        if s.len() >= 4 {
                            61
                        } else {
                            19
                        }
                    }
                } else {
                    if s.len() >= 3 {
                        if s.len() >= 4 {
                            if s[3] >= 'v' {
                                70
                            } else {
                                67
                            }
                        } else {
                            85
                        }
                    } else {
                        if s[1] >= 'c' {
                            1
                        } else {
                            7
                        }
                    }
                }
            }
        }
    }
}

proof fn lemma_context_flag(i: int)
    requires
        0 <= i < 10,
    ensures
        def_ok(registry_table::context_flag(i)),
        registry_table::context_flag(i).aliases.len() <= 2,
        forall|a: int|
            0 <= a <= registry_table::context_flag(i).aliases.len() ==> spelling_number(
                #[trigger] spelling(registry_table::context_flag(i), a),
            ) == 3 * (i) + a,
{
    reveal(registry_table::context_flag);
    reveal_strlit("--");
    if i == 0 {
        reveal_strlit("--ctx-size");
        reveal_strlit("-c");
        reveal_strlit("ctx-size");
        reveal_strlit("Prompt context size; 0 = model default");
        assert("--ctx-size"@.take(2) =~= "--"@);
    } else if i == 1 {
        reveal_strlit("--predict");
        reveal_strlit("-n");
        reveal_strlit("--n-predict");
        reveal_strlit("predict");
        reveal_strlit("Tokens to predict; -1 = infinity");
        assert("--predict"@.take(2) =~= "--"@);
    } else if i == 2 {
        reveal_strlit("--batch-size");
        reveal_strlit("-b");
        reveal_strlit("batch-size");
        reveal_strlit("Logical maximum batch size");
        assert("--batch-size"@.take(2) =~= "--"@);
    } else if i == 3 {
        reveal_strlit("--ubatch-size");
        reveal_strlit("-ub");
        reveal_strlit("ubatch-size");
        reveal_strlit("Physical maximum batch size");
        assert("--ubatch-size"@.take(2) =~= "--"@);
    } else if i == 4 {
        reveal_strlit("--keep");
        reveal_strlit("keep");
        reveal_strlit("Tokens to keep from the initial prompt");
        assert("--keep"@.take(2) =~= "--"@);
    } else if i == 5 {
        reveal_strlit("--swa-full");
        reveal_strlit("swa-full");
        reveal_strlit("Use full-size SWA cache");
        assert("--swa-full"@.take(2) =~= "--"@);
    } else if i == 6 {
        reveal_strlit("--flash-attn");
        reveal_strlit("-fa");
        reveal_strlit("flash-attn");
        reveal_strlit("Flash Attention on/off/auto");
        assert("--flash-attn"@.take(2) =~= "--"@);
    } else if i == 7 {
        reveal_strlit("--rope-scaling");
        reveal_strlit("none");
        reveal_strlit("linear");
        reveal_strlit("yarn");
        reveal_strlit("rope-scaling");
        reveal_strlit("RoPE frequency scaling method");
        assert("--rope-scaling"@.take(2) =~= "--"@);
        assert("none"@.len() != "linear"@.len());
        assert("none"@[0] != "yarn"@[0]);
        assert("linear"@.len() != "yarn"@.len());
    } else if i == 8 {
        reveal_strlit("--rope-scale");
        reveal_strlit("rope-scale");
        reveal_strlit("RoPE context scaling factor");
        assert("--rope-scale"@.take(2) =~= "--"@);
    } else {
        reveal_strlit("--rope-freq-base");
        reveal_strlit("rope-freq-base");
        reveal_strlit("RoPE base frequency (NTK-aware scaling)");
        assert("--rope-freq-base"@.take(2) =~= "--"@);
    }
}

proof fn lemma_gpu_flag(i: int)
    requires
        0 <= i < 12,
    ensures
        def_ok(registry_table::gpu_flag(i)),
        registry_table::gpu_flag(i).aliases.len() <= 2,
        forall|a: int|
            0 <= a <= registry_table::gpu_flag(i).aliases.len() ==> spelling_number(
                #[trigger] spelling(registry_table::gpu_flag(i), a),
            ) == 3 * (i + 10) + a,
{
    reveal(registry_table::gpu_flag);
    reveal_strlit("--");
    if i == 0 {
        reveal_strlit("--gpu-layers");
        reveal_strlit("-ngl");
        reveal_strlit("--n-gpu-layers");
        reveal_strlit("gpu-layers");
        reveal_strlit("Layers in VRAM; 999 = all");
        assert("--gpu-layers"@.take(2) =~= "--"@);
    } else if i == 1 {
        reveal_strlit("--split-mode");
        reveal_strlit("-sm");
        reveal_strlit("none");
        reveal_strlit("layer");
        reveal_strlit("row");
        reveal_strlit("tensor");
        reveal_strlit("split-mode");
        reveal_strlit("Multi-GPU split strategy");
        assert("--split-mode"@.take(2) =~= "--"@);
        assert("none"@.len() != "layer"@.len());
        assert("none"@.len() != "row"@.len());
        assert("none"@.len() != "tensor"@.len());
        assert("layer"@.len() != "row"@.len());
        assert("layer"@.len() != "tensor"@.len());
        assert("row"@.len() != "tensor"@.len());
    } else if i == 2 {
        reveal_strlit("--tensor-split");
        reveal_strlit("-ts");
        reveal_strlit("tensor-split");
        reveal_strlit("Per-GPU proportions, e.g. 3,1");
        assert("--tensor-split"@.take(2) =~= "--"@);
    } else if i == 3 {
        reveal_strlit("--main-gpu");
        reveal_strlit("-mg");
        reveal_strlit("main-gpu");
        reveal_strlit("GPU index for model or intermediate results");
        assert("--main-gpu"@.take(2) =~= "--"@);
    } else if i == 4 {
        reveal_strlit("--fit");
        reveal_strlit("fit");
        reveal_strlit("Adjust unset args to fit device memory");
        assert("--fit"@.take(2) =~= "--"@);
    } else if i == 5 {
        reveal_strlit("--fit-target");
        reveal_strlit("-fitt");
        reveal_strlit("fit-target");
        reveal_strlit("MiB of VRAM to leave FREE per device");
        assert("--fit-target"@.take(2) =~= "--"@);
    } else if i == 6 {
        reveal_strlit("--fit-ctx");
        reveal_strlit("-fitc");
        reveal_strlit("fit-ctx");
        reveal_strlit("Minimum ctx --fit may set");
        assert("--fit-ctx"@.take(2) =~= "--"@);
    } else if i == 7 {
        reveal_strlit("--override-tensor");
        reveal_strlit("-ot");
        reveal_strlit("override-tensor");
        reveal_strlit("Tensor pattern=buffer override, e.g. PLE offload");
        assert("--override-tensor"@.take(2) =~= "--"@);
    } else if i == 8 {
        reveal_strlit("--cpu-moe");
        reveal_strlit("-cmoe");
        reveal_strlit("cpu-moe");
        reveal_strlit("Keep all MoE weights on CPU");
        assert("--cpu-moe"@.take(2) =~= "--"@);
    } else if i == 9 {
        reveal_strlit("--n-cpu-moe");
        reveal_strlit("-ncmoe");
        reveal_strlit("n-cpu-moe");
        reveal_strlit("Keep first N layers of MoE weights on CPU");
        assert("--n-cpu-moe"@.take(2) =~= "--"@);
    } else if i == 10 {
        reveal_strlit("--device");
        reveal_strlit("-dev");
        reveal_strlit("device");
        reveal_strlit("Comma-separated devices for offload");
        assert("--device"@.take(2) =~= "--"@);
    } else {
        reveal_strlit("--no-kv-offload");
        reveal_strlit("-nkvo");
        reveal_strlit("no-kv-offload");
        reveal_strlit("Disable KV cache offloading to GPU");
        assert("--no-kv-offload"@.take(2) =~= "--"@);
    }
}

/// The data types of the KV cache are words that can be told apart.
proof fn lemma_cache_types()
    ensures
        options_ok(registry_table::cache_types()),
{
    reveal_strlit("f32");
    reveal_strlit("f16");
    reveal_strlit("bf16");
    reveal_strlit("q8_0");
    reveal_strlit("q4_0");
    reveal_strlit("q4_1");
    reveal_strlit("iq4_nl");
    reveal_strlit("q5_0");
    reveal_strlit("q5_1");
    assert("f32"@[1] != "f16"@[1]);
    assert("f32"@.len() != "bf16"@.len());
    assert("f32"@.len() != "q8_0"@.len());
    assert("f32"@.len() != "q4_0"@.len());
    assert("f32"@.len() != "q4_1"@.len());
    assert("f32"@.len() != "iq4_nl"@.len());
    assert("f32"@.len() != "q5_0"@.len());
    assert("f32"@.len() != "q5_1"@.len());
    assert("f16"@.len() != "bf16"@.len());
    assert("f16"@.len() != "q8_0"@.len());
    assert("f16"@.len() != "q4_0"@.len());
    assert("f16"@.len() != "q4_1"@.len());
    assert("f16"@.len() != "iq4_nl"@.len());
    assert("f16"@.len() != "q5_0"@.len());
    assert("f16"@.len() != "q5_1"@.len());
    assert("bf16"@[0] != "q8_0"@[0]);
    assert("bf16"@[0] != "q4_0"@[0]);
    assert("bf16"@[0] != "q4_1"@[0]);
    assert("bf16"@.len() != "iq4_nl"@.len());
    assert("bf16"@[0] != "q5_0"@[0]);
    assert("bf16"@[0] != "q5_1"@[0]);
    assert("q8_0"@[1] != "q4_0"@[1]);
    assert("q8_0"@[1] != "q4_1"@[1]);
    assert("q8_0"@.len() != "iq4_nl"@.len());
    assert("q8_0"@[1] != "q5_0"@[1]);
    assert("q8_0"@[1] != "q5_1"@[1]);
    assert("q4_0"@[3] != "q4_1"@[3]);
    assert("q4_0"@.len() != "iq4_nl"@.len());
    assert("q4_0"@[1] != "q5_0"@[1]);
    assert("q4_0"@[1] != "q5_1"@[1]);
    assert("q4_1"@.len() != "iq4_nl"@.len());
    assert("q4_1"@[1] != "q5_0"@[1]);
    assert("q4_1"@[1] != "q5_1"@[1]);
    assert("iq4_nl"@.len() != "q5_0"@.len());
    assert("iq4_nl"@.len() != "q5_1"@.len());
    assert("q5_0"@[3] != "q5_1"@[3]);
}

proof fn lemma_cache_flag(i: int)
    requires
        0 <= i < 2,
    ensures
        def_ok(registry_table::cache_flag(i)),
        registry_table::cache_flag(i).aliases.len() <= 2,
        forall|a: int|
            0 <= a <= registry_table::cache_flag(i).aliases.len() ==> spelling_number(
                #[trigger] spelling(registry_table::cache_flag(i), a),
            ) == 3 * (i + 22) + a,
{
    reveal(registry_table::cache_flag);
    reveal_strlit("--");
    lemma_cache_types();
    if i == 0 {
        reveal_strlit("--cache-type-k");
        reveal_strlit("-ctk");
        reveal_strlit("cache-type-k");
        reveal_strlit("KV cache data type for K");
        assert("--cache-type-k"@.take(2) =~= "--"@);
    } else {
        reveal_strlit("--cache-type-v");
        reveal_strlit("-ctv");
        reveal_strlit("cache-type-v");
        reveal_strlit("KV cache data type for V");
        assert("--cache-type-v"@.take(2) =~= "--"@);
    }
}

proof fn lemma_cpu_flag(i: int)
    requires
        0 <= i < 6,
    ensures
        def_ok(registry_table::cpu_flag(i)),
        registry_table::cpu_flag(i).aliases.len() <= 2,
        forall|a: int|
            0 <= a <= registry_table::cpu_flag(i).aliases.len() ==> spelling_number(
                #[trigger] spelling(registry_table::cpu_flag(i), a),
            ) == 3 * (i + 24) + a,
{
    reveal(registry_table::cpu_flag);
    reveal_strlit("--");
    if i == 0 {
        reveal_strlit("--threads");
        reveal_strlit("-t");
        reveal_strlit("threads");
        reveal_strlit("CPU threads for generation");
        assert("--threads"@.take(2) =~= "--"@);
    } else if i == 1 {
        reveal_strlit("--threads-batch");
        reveal_strlit("-tb");
        reveal_strlit("threads-batch");
        reveal_strlit("CPU threads for batch/prompt processing");
        assert("--threads-batch"@.take(2) =~= "--"@);
    } else if i == 2 {
        reveal_strlit("--prio");
        reveal_strlit("prio");
        reveal_strlit("Process priority: -1 low … 3 realtime");
        assert("--prio"@.take(2) =~= "--"@);
    } else if i == 3 {
        reveal_strlit("--poll");
        reveal_strlit("poll");
        reveal_strlit("Polling level to wait for work; 0 = off");
        assert("--poll"@.take(2) =~= "--"@);
    } else if i == 4 {
        reveal_strlit("--cpu-range");
        reveal_strlit("-Cr");
        reveal_strlit("cpu-range");
        reveal_strlit("CPU affinity range (often handled by taskset)");
        assert("--cpu-range"@.take(2) =~= "--"@);
    } else {
        reveal_strlit("--numa");
        reveal_strlit("distribute");
        reveal_strlit("isolate");
        reveal_strlit("numactl");
        reveal_strlit("numa");
        reveal_strlit("NUMA optimization strategy");
        assert("--numa"@.take(2) =~= "--"@);
        assert("distribute"@.len() != "isolate"@.len());
        assert("distribute"@.len() != "numactl"@.len());
        assert("isolate"@[0] != "numactl"@[0]);
    }
}

proof fn lemma_load_flag(i: int)
    requires
        0 <= i < 3,
    ensures
        def_ok(registry_table::load_flag(i)),
        registry_table::load_flag(i).aliases.len() <= 2,
        forall|a: int|
            0 <= a <= registry_table::load_flag(i).aliases.len() ==> spelling_number(
                #[trigger] spelling(registry_table::load_flag(i), a),
            ) == 3 * (i + 30) + a,
{
    reveal(registry_table::load_flag);
    reveal_strlit("--");
    if i == 0 {
        reveal_strlit("--load-mode");
        reveal_strlit("-lm");
        reveal_strlit("auto");
        reveal_strlit("none");
        reveal_strlit("mmap");
        reveal_strlit("mlock");
        reveal_strlit("mmap+mlock");
        reveal_strlit("dio");
        reveal_strlit("load-mode");
        reveal_strlit("Model loading mode (mmap keeps PLE reads lazy)");
        assert("--load-mode"@.take(2) =~= "--"@);
        assert("auto"@[0] != "none"@[0]);
        assert("auto"@[0] != "mmap"@[0]);
        assert("auto"@.len() != "mlock"@.len());
        assert("auto"@.len() != "mmap+mlock"@.len());
        assert("auto"@.len() != "dio"@.len());
        assert("none"@[0] != "mmap"@[0]);
        assert("none"@.len() != "mlock"@.len());
        assert("none"@.len() != "mmap+mlock"@.len());
        assert("none"@.len() != "dio"@.len());
        assert("mmap"@.len() != "mlock"@.len());
        assert("mmap"@.len() != "mmap+mlock"@.len());
        assert("mmap"@.len() != "dio"@.len());
        assert("mlock"@.len() != "mmap+mlock"@.len());
        assert("mlock"@.len() != "dio"@.len());
        assert("mmap+mlock"@.len() != "dio"@.len());
    } else if i == 1 {
        reveal_strlit("--check-tensors");
        reveal_strlit("check-tensors");
        reveal_strlit("Validate model tensor data on load");
        assert("--check-tensors"@.take(2) =~= "--"@);
    } else {
        reveal_strlit("--override-kv");
        reveal_strlit("override-kv");
        reveal_strlit("Model metadata overrides, KEY=TYPE:VALUE,...");
        assert("--override-kv"@.take(2) =~= "--"@);
    }
}

proof fn lemma_sampling_flag(i: int)
    requires
        0 <= i < 5,
    ensures
        def_ok(registry_table::sampling_flag(i)),
        registry_table::sampling_flag(i).aliases.len() <= 2,
        forall|a: int|
            0 <= a <= registry_table::sampling_flag(i).aliases.len() ==> spelling_number(
                #[trigger] spelling(registry_table::sampling_flag(i), a),
            ) == 3 * (i + 33) + a,
{
    reveal(registry_table::sampling_flag);
    reveal_strlit("--");
    if i == 0 {
        reveal_strlit("--temp");
        reveal_strlit("temp");
        reveal_strlit("Temperature (float, e.g. 1.0)");
        assert("--temp"@.take(2) =~= "--"@);
    } else if i == 1 {
        reveal_strlit("--top-k");
        reveal_strlit("top-k");
        reveal_strlit("Top-K sampling");
        assert("--top-k"@.take(2) =~= "--"@);
    } else if i == 2 {
        reveal_strlit("--top-p");
        reveal_strlit("top-p");
        reveal_strlit("Top-P sampling (float, e.g. 0.95)");
        assert("--top-p"@.take(2) =~= "--"@);
    } else if i == 3 {
        reveal_strlit("--min-p");
        reveal_strlit("min-p");
        reveal_strlit("Min-P sampling (float)");
        assert("--min-p"@.take(2) =~= "--"@);
    } else {
        reveal_strlit("--repeat-penalty");
        reveal_strlit("repeat-penalty");
        reveal_strlit("Repeat penalty (float)");
        assert("--repeat-penalty"@.take(2) =~= "--"@);
    }
}

proof fn lemma_server_flag(i: int)
    requires
        0 <= i < 10,
    ensures
        def_ok(registry_table::server_flag(i)),
        registry_table::server_flag(i).aliases.len() <= 2,
        forall|a: int|
            0 <= a <= registry_table::server_flag(i).aliases.len() ==> spelling_number(
                #[trigger] spelling(registry_table::server_flag(i), a),
            ) == 3 * (i + 38) + a,
{
    reveal(registry_table::server_flag);
    reveal_strlit("--");
    if i == 0 {
        reveal_strlit("--alias");
        reveal_strlit("alias");
        reveal_strlit("Model alias for the API");
        assert("--alias"@.take(2) =~= "--"@);
    } else if i == 1 {
        reveal_strlit("--host");
        reveal_strlit("host");
        reveal_strlit("Bind address (--port is managed by llama-swap)");
        assert("--host"@.take(2) =~= "--"@);
    } else if i == 2 {
        reveal_strlit("--parallel");
        reveal_strlit("-np");
        reveal_strlit("parallel");
        reveal_strlit("Number of server slots");
        assert("--parallel"@.take(2) =~= "--"@);
    } else if i == 3 {
        reveal_strlit("--no-cont-batching");
        reveal_strlit("no-cont-batching");
        reveal_strlit("Disable continuous batching");
        assert("--no-cont-batching"@.take(2) =~= "--"@);
    } else if i == 4 {
        reveal_strlit("--jinja");
        reveal_strlit("jinja");
        reveal_strlit("Use the model's Jinja chat template");
        assert("--jinja"@.take(2) =~= "--"@);
    } else if i == 5 {
        reveal_strlit("--no-warmup");
        reveal_strlit("no-warmup");
        reveal_strlit("Skip warmup pass at load");
        assert("--no-warmup"@.take(2) =~= "--"@);
    } else if i == 6 {
        reveal_strlit("--metrics");
        reveal_strlit("metrics");
        reveal_strlit("Enable Prometheus /metrics endpoint");
        assert("--metrics"@.take(2) =~= "--"@);
    } else if i == 7 {
        reveal_strlit("--slots");
        reveal_strlit("slots");
        reveal_strlit("Enable /slots endpoint");
        assert("--slots"@.take(2) =~= "--"@);
    } else if i == 8 {
        reveal_strlit("--reasoning-effort");
        reveal_strlit("minimal");
        reveal_strlit("low");
        reveal_strlit("medium");
        reveal_strlit("high");
        reveal_strlit("reasoning-effort");
        reveal_strlit("Default reasoning effort");
        assert("--reasoning-effort"@.take(2) =~= "--"@);
        assert("minimal"@.len() != "low"@.len());
        assert("minimal"@.len() != "medium"@.len());
        assert("minimal"@.len() != "high"@.len());
        assert("low"@.len() != "medium"@.len());
        assert("low"@.len() != "high"@.len());
        assert("medium"@.len() != "high"@.len());
    } else {
        reveal_strlit("--reasoning-budget");
        reveal_strlit("reasoning-budget");
        reveal_strlit("Reasoning token budget; 0 = unlimited");
        assert("--reasoning-budget"@.take(2) =~= "--"@);
    }
}

/// Every entry of the registry is well formed: long flags start with `--`, aliases
/// with `-`, labels and descriptions are not empty, bounds are in order and options
/// can be told apart.
pub proof fn registry_is_well_formed(i: int)
    requires
        0 <= i < REGISTRY_LEN,
    ensures
        def_ok(registry_table::flag_table()[i]),
{
    if i < 10 {
        lemma_context_flag(i);
    } else if i < 22 {
        lemma_gpu_flag(i - 10);
    } else if i < 24 {
        lemma_cache_flag(i - 22);
    } else if i < 30 {
        lemma_cpu_flag(i - 24);
    } else if i < 33 {
        lemma_load_flag(i - 30);
    } else if i < 38 {
        lemma_sampling_flag(i - 33);
    } else {
        lemma_server_flag(i - 38);
    }
}

proof fn lemma_spelling_number(i: int, a: int)
    requires
        0 <= i < REGISTRY_LEN,
        0 <= a <= registry_table::flag_table()[i].aliases.len(),
    ensures
        a <= 2,
        spelling_number(spelling(registry_table::flag_table()[i], a)) == 3 * i + a,
{
    if i < 10 {
        lemma_context_flag(i);
    } else if i < 22 {
        lemma_gpu_flag(i - 10);
    } else if i < 24 {
        lemma_cache_flag(i - 22);
    } else if i < 30 {
        lemma_cpu_flag(i - 24);
    } else if i < 33 {
        lemma_load_flag(i - 30);
    } else if i < 38 {
        lemma_sampling_flag(i - 33);
    } else {
        lemma_server_flag(i - 38);
    }
}

/// No spelling stands twice in the registry, be it as a long flag or as an alias.
pub proof fn spellings_are_unique(i: int, a: int, j: int, b: int)
    requires
        0 <= i < REGISTRY_LEN,
        0 <= a <= registry_table::flag_table()[i].aliases.len(),
        0 <= j < REGISTRY_LEN,
        0 <= b <= registry_table::flag_table()[j].aliases.len(),
        spelling(registry_table::flag_table()[i], a) == spelling(registry_table::flag_table()[j], b),
    ensures
        i == j,
        a == b,
{
    lemma_spelling_number(i, a);
    lemma_spelling_number(j, b);
}

/// Looking up any spelling of a flag finds that flag.
pub proof fn every_spelling_is_found(i: int, a: int)
    requires
        0 <= i < REGISTRY_LEN,
        0 <= a <= registry_table::flag_table()[i].aliases.len(),
    ensures
        param_registry::find_flag(spelling(registry_table::flag_table()[i], a)) == Some(i),
{
    let name = spelling(registry_table::flag_table()[i], a);
    assert(registry_table::flag_table()[i].is_called(name)) by {
        if a > 0 {
            assert(registry_table::flag_table()[i].aliases[a - 1] == name);
        }
    }
    param_registry::lemma_find_flag_from(name, 0);
    let j = param_registry::find_flag(name)->0;
    let other = registry_table::flag_table()[j];
    let b = if other.flag == name {
        0
    } else {
        1 + choose|k: int| 0 <= k < other.aliases.len() && other.aliases[k] == name
    };
    assert(spelling(other, b) == name);
    spellings_are_unique(i, a, j, b);
}

/// A spelling that the registry knows is plain and starts with `-`.
pub proof fn known_flags_are_plain(token: Seq<char>)
    requires
        param_registry::find_flag(token) is Some,
    ensures
        is_plain(token),
        token[0] == '-',
        spelling_is_of(token, param_registry::find_flag(token)->0),
{
    param_registry::lemma_find_flag_from(token, 0);
    let i = param_registry::find_flag(token)->0;
    let def = registry_table::flag_table()[i];
    registry_is_well_formed(i);
    let a = if def.flag == token {
        0
    } else {
        1 + choose|k: int| 0 <= k < def.aliases.len() && def.aliases[k] == token
    };
    assert(spelling(def, a) == token);
    if a == 0 {
        reveal_strlit("--");
        assert(def.flag.take(2)[0] == '-');
    } else {
        assert(text::starts_with_char(def.aliases[a - 1], '-'));
    }
}

/// Whether `token` is a spelling of the flag at position `i`.
pub open spec fn spelling_is_of(token: Seq<char>, i: int) -> bool {
    &&& 0 <= i < REGISTRY_LEN
    &&& exists|a: int|
        0 <= a <= registry_table::flag_table()[i].aliases.len() && token == #[trigger] spelling(
            registry_table::flag_table()[i],
            a,
        )
}

/// The flags that are managed elsewhere do not stand in the registry.
pub proof fn managed_flags_are_unknown()
    ensures
        param_registry::find_flag("--port"@) is None,
        param_registry::find_flag("-m"@) is None,
        param_registry::find_flag("--model"@) is None,
{
    reveal_strlit("--port");
    reveal_strlit("-m");
    reveal_strlit("--model");
    assert forall|token: Seq<char>|
        token == "--port"@ || token == "-m"@ || token
            == "--model"@ implies param_registry::find_flag(token) is None by {
        if param_registry::find_flag(token) is Some {
            known_flags_are_plain(token);
            let i = param_registry::find_flag(token)->0;
            let a = choose|a: int|
                0 <= a <= registry_table::flag_table()[i].aliases.len() && token
                    == #[trigger] spelling(registry_table::flag_table()[i], a);
            lemma_spelling_number(i, a);
            if token == "--port"@ {
                assert(i == 27 && a == 0);
                reveal(registry_table::cpu_flag);
                reveal_strlit("--poll");
                assert("--poll"@[4] != "--port"@[4]);
            }
            if token == "-m"@ {
                assert(i == 13 && a == 1);
                reveal(registry_table::gpu_flag);
                reveal_strlit("-mg");
                assert("-mg"@.len() != "-m"@.len());
            }
            if token == "--model"@ {
                assert(i == 36 && a == 0);
                reveal(registry_table::sampling_flag);
                reveal_strlit("--min-p");
                assert("--min-p"@[3] != "--model"@[3]);
            }
        }
    }
}

/// The category of the flag at position `i`.
pub open spec fn category_at(i: int) -> ParamCategory {
    if i < 10 {
        ParamCategory::Context
    } else if i < 22 {
        ParamCategory::Gpu
    } else if i < 24 {
        ParamCategory::Cache
    } else if i < 30 {
        ParamCategory::Cpu
    } else if i < 33 {
        ParamCategory::Load
    } else if i < 38 {
        ParamCategory::Sampling
    } else {
        ParamCategory::Server
    }
}

/// The registry is grouped by category, in the order of the categories.
pub proof fn registry_is_grouped(i: int)
    requires
        0 <= i < REGISTRY_LEN,
    ensures
        registry_table::flag_table()[i].category == category_at(i),
{
    reveal(registry_table::context_flag);
    reveal(registry_table::gpu_flag);
    reveal(registry_table::cache_flag);
    reveal(registry_table::cpu_flag);
    reveal(registry_table::load_flag);
    reveal(registry_table::sampling_flag);
    reveal(registry_table::server_flag);
}

/// Every category has at least one flag.
pub proof fn every_category_has_flags(category: ParamCategory)
    ensures
        param_registry::category_start_from(category, 0) is Some,
{
    if param_registry::category_start_from(category, 0) is None {
        let i = choose|i: int| 0 <= i < REGISTRY_LEN && category_at(i) == category;
        assert(category_at(0) == ParamCategory::Context);
        assert(category_at(10) == ParamCategory::Gpu);
        assert(category_at(22) == ParamCategory::Cache);
        assert(category_at(24) == ParamCategory::Cpu);
        assert(category_at(30) == ParamCategory::Load);
        assert(category_at(33) == ParamCategory::Sampling);
        assert(category_at(38) == ParamCategory::Server);
        lemma_no_category(category, 0, i);
        registry_is_grouped(i);
    }
}

proof fn lemma_no_category(category: ParamCategory, from: int, i: int)
    requires
        0 <= from <= i < REGISTRY_LEN,
        param_registry::category_start_from(category, from) is None,
    ensures
        registry_table::flag_table()[i].category != category,
    decreases i - from,
{
    if from < i {
        lemma_no_category(category, from + 1, i);
    }
}

/// Whether a preset value can be stored for a flag of this kind.
pub open spec fn preset_value_fits(kind: KindSpec, value: PresetValueSpec) -> bool {
    match value {
        PresetValueSpec::Int(v) => match kind {
            KindSpec::Integer { min, max, .. } => min <= v <= max,
            _ => false,
        },
        PresetValueSpec::On => kind is Toggle || kind is TriState,
        PresetValueSpec::Off => kind is TriState,
        PresetValueSpec::Opt(option) => match kind {
            KindSpec::Choice(options) => param_registry::option_index(options, option) is Some,
            _ => false,
        },
        PresetValueSpec::Text(text) => kind is Text,
    }
}

/// Every preset refers to flags of the registry only, with values of their kinds.
pub proof fn presets_fit_the_registry(p: int, k: int)
    requires
        0 <= p < PRESET_COUNT,
        0 <= k < registry_table::preset_table()[p].values.len(),
    ensures
        ({
            let pair = registry_table::preset_table()[p].values[k];
            match param_registry::find_flag(pair.0) {
                Some(i) => 0 <= i < REGISTRY_LEN && preset_value_fits(
                    registry_table::flag_table()[i].kind,
                    pair.1,
                ),
                None => false,
            }
        }),
{
    reveal(registry_table::preset_at);
    reveal(registry_table::context_flag);
    reveal(registry_table::gpu_flag);
    reveal(registry_table::cache_flag);
    reveal(registry_table::cpu_flag);
    reveal(registry_table::load_flag);
    reveal(registry_table::sampling_flag);
    reveal(registry_table::server_flag);
    if p == 0 {
        every_spelling_is_found(0, 0);
        every_spelling_is_found(10, 0);
        every_spelling_is_found(6, 0);
        every_spelling_is_found(14, 0);
        every_spelling_is_found(16, 0);
        every_spelling_is_found(22, 0);
        registry_is_well_formed(22);
        param_registry::lemma_option_index_is(
            registry_table::flag_table()[22].kind->0,
            "q8_0"@,
            3,
        );
        every_spelling_is_found(23, 0);
        registry_is_well_formed(23);
        param_registry::lemma_option_index_is(
            registry_table::flag_table()[23].kind->0,
            "q8_0"@,
            3,
        );
        every_spelling_is_found(2, 0);
        every_spelling_is_found(3, 0);
        every_spelling_is_found(40, 0);
        every_spelling_is_found(42, 0);
    } else if p == 1 {
        every_spelling_is_found(17, 0);
        every_spelling_is_found(30, 0);
        registry_is_well_formed(30);
        param_registry::lemma_option_index_is(
            registry_table::flag_table()[30].kind->0,
            "mmap"@,
            2,
        );
        every_spelling_is_found(14, 0);
        every_spelling_is_found(6, 0);
    } else if p == 2 {
        every_spelling_is_found(10, 0);
        every_spelling_is_found(19, 0);
        every_spelling_is_found(6, 0);
        every_spelling_is_found(14, 0);
    } else {
        every_spelling_is_found(0, 0);
        every_spelling_is_found(10, 0);
        every_spelling_is_found(14, 0);
        every_spelling_is_found(6, 0);
        every_spelling_is_found(43, 0);
        every_spelling_is_found(44, 0);
    }
}

} // verus!
