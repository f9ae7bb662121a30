//! The tensors of a checkpoint, by their names, and the packed parameters that they are parts of.
use crate::models::qwen3;
use crate::models::qwen3_laws;
use crate::utils::loader;
use crate::utils::loader::{PackedView, ShardId};
use crate::utils::text;
use crate::utils::text_laws;
use vstd::prelude::*;

verus! {

/// The packed modules of the model, as it names them.
pub open spec fn are_packed_so(modules: Seq<PackedView>) -> bool {
    &&& modules.len() == 5
    &&& modules[0] == qwen3::packed_view("q_proj"@, "qkv_proj"@, ShardId::Name("q"))
    &&& modules[1] == qwen3::packed_view("k_proj"@, "qkv_proj"@, ShardId::Name("k"))
    &&& modules[2] == qwen3::packed_view("v_proj"@, "qkv_proj"@, ShardId::Name("v"))
    &&& modules[3] == qwen3::packed_view("gate_proj"@, "gate_up_proj"@, ShardId::Index(0))
    &&& modules[4] == qwen3::packed_view("up_proj"@, "gate_up_proj"@, ShardId::Index(1))
}

/// Where the suffix of a parameter of layer `i` begins.
spec fn suffix_start(i: nat) -> int {
    ("model.layers."@ + text_laws::decimal(i)).len() + 1int
}

/// Behind a character `before`, an underscore stands in `suffix` at place `u` only, or nowhere
/// where that is negative.
spec fn has_underscore_only_at(suffix: Seq<char>, before: char, u: int) -> bool {
    &&& suffix.len() > 0 && suffix[0] != '_'
    &&& forall|q: int|
        0 < q < suffix.len() && #[trigger] suffix[q] == '_' && suffix[q - 1] == before ==> q == u
}

/// A key with its first underscore at place `k` stands in the name of a parameter only where an
/// underscore in the suffix has the same character before it.
proof fn lemma_key(i: nat, suffix: Seq<char>, key: Seq<char>, k: int, u: int)
    requires
        0 < k < key.len(),
        key[k] == '_',
        has_underscore_only_at(suffix, key[k - 1], u),
    ensures
        forall|p: int| #[trigger]
            qwen3_laws::stands_at(qwen3_laws::name_in_layer(i, suffix), key, p) ==> u > 0 && p
                == suffix_start(i) + u - k,
{
    let name = qwen3_laws::name_in_layer(i, suffix);
    let prefix = "model.layers."@;
    let digits = text_laws::decimal(i);
    let start = suffix_start(i);
    text_laws::lemma_decimal(i);
    reveal_strlit("model.layers.");
    assert forall|p: int| #[trigger] qwen3_laws::stands_at(name, key, p) implies u > 0 && p == start
        + u - k by {
        let q = p + k;
        assert(name[q] == name.subrange(p, p + key.len())[k]);
        assert(name[q - 1] == name.subrange(p, p + key.len())[k - 1]);
        if q < prefix.len() {
            assert(name[q] == prefix[q]);
            assert(q == 0 || q == 1 || q == 2 || q == 3 || q == 4 || q == 5 || q == 6 || q == 7 ||
            q == 8 || q == 9 || q == 10 || q == 11 || q == 12);
        } else if q < prefix.len() + digits.len() {
            assert(name[q] == digits[q - prefix.len()]);
            assert(text::is_digit(digits[q - prefix.len()]));
        } else if q < start {
            assert(name[q] == '.');
        } else {
            assert(name[q] == suffix[q - start]);
            if q > start {
                assert(name[q - 1] == suffix[q - start - 1]);
            }
        }
    }
}

/// A key that stands in the suffix stands in the name.
proof fn lemma_stands(i: nat, suffix: Seq<char>, key: Seq<char>, p: int)
    requires
        0 <= p,
        p + key.len() <= suffix.len(),
        suffix.subrange(p, p + key.len()) == key,
    ensures
        qwen3_laws::stands_at(qwen3_laws::name_in_layer(i, suffix), key, suffix_start(i) + p),
{
    let name = qwen3_laws::name_in_layer(i, suffix);
    let start = suffix_start(i);
    assert(name.subrange(start + p, start + p + key.len()) =~= suffix.subrange(p, p + key.len()));
}

/// The name of a packed parameter, from that of a tensor.
proof fn lemma_renamed(i: nat, suffix: Seq<char>, key: Seq<char>, target: Seq<char>, p: int)
    requires
        0 <= p,
        p + key.len() <= suffix.len(),
    ensures
        ({
            let name = qwen3_laws::name_in_layer(i, suffix);
            let at = suffix_start(i) + p;
            name.take(at) + target + name.skip(at + key.len()) == qwen3_laws::name_in_layer(
                i,
                suffix.take(p) + target + suffix.skip(p + key.len()),
            )
        }),
{
    let name = qwen3_laws::name_in_layer(i, suffix);
    let at = suffix_start(i) + p;
    assert(name.take(at) + target + name.skip(at + key.len()) =~= qwen3_laws::name_in_layer(
        i,
        suffix.take(p) + target + suffix.skip(p + key.len()),
    ));
}

proof fn lemma_queries(i: nat, modules: Seq<PackedView>)
    requires
        are_packed_so(modules),
    ensures
        loader::param_of(qwen3_laws::name_in_layer(i, "self_attn.q_proj.weight"@), modules, 0) == (
            qwen3_laws::name_in_layer(i, "self_attn.qkv_proj.weight"@),
            Some(ShardId::Name("q")),
        ),
{
    let suffix = "self_attn.q_proj.weight"@;
    let key = "q_proj"@;
    reveal_strlit("self_attn.q_proj.weight");
    reveal_strlit("self_attn.qkv_proj.weight");
    reveal_strlit("qkv_proj");
    reveal_strlit("q_proj");
    assert(has_underscore_only_at(suffix, 'q', 11)) by {
        assert forall|q: int|
            0 < q < suffix.len() && #[trigger] suffix[q] == '_' && suffix[q - 1]
                == 'q' implies q == 11 by {
            assert(q == 0 || q == 1 || q == 2 || q == 3 || q == 4 || q == 5 || q == 6 || q == 7 ||
                q == 8 || q == 9 || q == 10 || q == 11 || q == 12 || q == 13 || q == 14 ||
                q == 15 || q == 16 || q == 17 || q == 18 || q == 19 || q == 20 || q == 21 ||
                q == 22);
        }
    }
    lemma_key(i, suffix, "q_proj"@, 1, 11);
    let name = qwen3_laws::name_in_layer(i, suffix);
    assert(suffix.subrange(10, 16) =~= key);
    lemma_stands(i, suffix, key, 10);
    lemma_renamed(i, suffix, key, "qkv_proj"@, 10);
    assert(suffix.take(10) + "qkv_proj"@ + suffix.skip(16) =~= "self_attn.qkv_proj.weight"@);
    qwen3_laws::packed_tensors_go_to_the_packed_parameter(
        name,
        modules,
        0,
        suffix_start(i) + 10,
    );
}

proof fn lemma_keys(i: nat, modules: Seq<PackedView>)
    requires
        are_packed_so(modules),
    ensures
        loader::param_of(qwen3_laws::name_in_layer(i, "self_attn.k_proj.weight"@), modules, 0) == (
            qwen3_laws::name_in_layer(i, "self_attn.qkv_proj.weight"@),
            Some(ShardId::Name("k")),
        ),
{
    let suffix = "self_attn.k_proj.weight"@;
    let key = "k_proj"@;
    reveal_strlit("self_attn.k_proj.weight");
    reveal_strlit("self_attn.qkv_proj.weight");
    reveal_strlit("qkv_proj");
    reveal_strlit("q_proj");
    reveal_strlit("k_proj");
    assert(has_underscore_only_at(suffix, 'q', -1)) by {
        assert forall|q: int|
            0 < q < suffix.len() && #[trigger] suffix[q] == '_' && suffix[q - 1]
                == 'q' implies q == -1 by {
            assert(q == 0 || q == 1 || q == 2 || q == 3 || q == 4 || q == 5 || q == 6 || q == 7 ||
                q == 8 || q == 9 || q == 10 || q == 11 || q == 12 || q == 13 || q == 14 ||
                q == 15 || q == 16 || q == 17 || q == 18 || q == 19 || q == 20 || q == 21 ||
                q == 22);
        }
    }
    lemma_key(i, suffix, "q_proj"@, 1, -1);
    assert(has_underscore_only_at(suffix, 'k', 11)) by {
        assert forall|q: int|
            0 < q < suffix.len() && #[trigger] suffix[q] == '_' && suffix[q - 1]
                == 'k' implies q == 11 by {
            assert(q == 0 || q == 1 || q == 2 || q == 3 || q == 4 || q == 5 || q == 6 || q == 7 ||
                q == 8 || q == 9 || q == 10 || q == 11 || q == 12 || q == 13 || q == 14 ||
                q == 15 || q == 16 || q == 17 || q == 18 || q == 19 || q == 20 || q == 21 ||
                q == 22);
        }
    }
    lemma_key(i, suffix, "k_proj"@, 1, 11);
    let name = qwen3_laws::name_in_layer(i, suffix);
    assert forall|k: int, q: int| 0 <= k < 1 implies !#[trigger] qwen3_laws::stands_at(
        name,
        modules[k].key,
        q,
    ) by {
        assert(k == 0);
    }
    assert(suffix.subrange(10, 16) =~= key);
    lemma_stands(i, suffix, key, 10);
    lemma_renamed(i, suffix, key, "qkv_proj"@, 10);
    assert(suffix.take(10) + "qkv_proj"@ + suffix.skip(16) =~= "self_attn.qkv_proj.weight"@);
    qwen3_laws::packed_tensors_go_to_the_packed_parameter(
        name,
        modules,
        1,
        suffix_start(i) + 10,
    );
}

proof fn lemma_values(i: nat, modules: Seq<PackedView>)
    requires
        are_packed_so(modules),
    ensures
        loader::param_of(qwen3_laws::name_in_layer(i, "self_attn.v_proj.weight"@), modules, 0) == (
            qwen3_laws::name_in_layer(i, "self_attn.qkv_proj.weight"@),
            Some(ShardId::Name("v")),
        ),
{
    let suffix = "self_attn.v_proj.weight"@;
    let key = "v_proj"@;
    reveal_strlit("self_attn.v_proj.weight");
    reveal_strlit("self_attn.qkv_proj.weight");
    reveal_strlit("qkv_proj");
    reveal_strlit("q_proj");
    reveal_strlit("k_proj");
    reveal_strlit("v_proj");
    assert(has_underscore_only_at(suffix, 'q', -1)) by {
        assert forall|q: int|
            0 < q < suffix.len() && #[trigger] suffix[q] == '_' && suffix[q - 1]
                == 'q' implies q == -1 by {
            assert(q == 0 || q == 1 || q == 2 || q == 3 || q == 4 || q == 5 || q == 6 || q == 7 ||
                q == 8 || q == 9 || q == 10 || q == 11 || q == 12 || q == 13 || q == 14 ||
                q == 15 || q == 16 || q == 17 || q == 18 || q == 19 || q == 20 || q == 21 ||
                q == 22);
        }
    }
    lemma_key(i, suffix, "q_proj"@, 1, -1);
    assert(has_underscore_only_at(suffix, 'k', -1)) by {
        assert forall|q: int|
            0 < q < suffix.len() && #[trigger] suffix[q] == '_' && suffix[q - 1]
                == 'k' implies q == -1 by {
            assert(q == 0 || q == 1 || q == 2 || q == 3 || q == 4 || q == 5 || q == 6 || q == 7 ||
                q == 8 || q == 9 || q == 10 || q == 11 || q == 12 || q == 13 || q == 14 ||
                q == 15 || q == 16 || q == 17 || q == 18 || q == 19 || q == 20 || q == 21 ||
                q == 22);
        }
    }
    lemma_key(i, suffix, "k_proj"@, 1, -1);
    assert(has_underscore_only_at(suffix, 'v', 11)) by {
        assert forall|q: int|
            0 < q < suffix.len() && #[trigger] suffix[q] == '_' && suffix[q - 1]
                == 'v' implies q == 11 by {
            assert(q == 0 || q == 1 || q == 2 || q == 3 || q == 4 || q == 5 || q == 6 || q == 7 ||
                q == 8 || q == 9 || q == 10 || q == 11 || q == 12 || q == 13 || q == 14 ||
                q == 15 || q == 16 || q == 17 || q == 18 || q == 19 || q == 20 || q == 21 ||
                q == 22);
        }
    }
    lemma_key(i, suffix, "v_proj"@, 1, 11);
    let name = qwen3_laws::name_in_layer(i, suffix);
    assert forall|k: int, q: int| 0 <= k < 2 implies !#[trigger] qwen3_laws::stands_at(
        name,
        modules[k].key,
        q,
    ) by {
        assert(k == 0 || k == 1);
    }
    assert(suffix.subrange(10, 16) =~= key);
    lemma_stands(i, suffix, key, 10);
    lemma_renamed(i, suffix, key, "qkv_proj"@, 10);
    assert(suffix.take(10) + "qkv_proj"@ + suffix.skip(16) =~= "self_attn.qkv_proj.weight"@);
    qwen3_laws::packed_tensors_go_to_the_packed_parameter(
        name,
        modules,
        2,
        suffix_start(i) + 10,
    );
}

proof fn lemma_gating(i: nat, modules: Seq<PackedView>)
    requires
        are_packed_so(modules),
    ensures
        loader::param_of(qwen3_laws::name_in_layer(i, "mlp.gate_proj.weight"@), modules, 0) == (
            qwen3_laws::name_in_layer(i, "mlp.gate_up_proj.weight"@),
            Some(ShardId::Index(0)),
        ),
{
    let suffix = "mlp.gate_proj.weight"@;
    let key = "gate_proj"@;
    reveal_strlit("mlp.gate_proj.weight");
    reveal_strlit("mlp.gate_up_proj.weight");
    reveal_strlit("gate_up_proj");
    reveal_strlit("q_proj");
    reveal_strlit("k_proj");
    reveal_strlit("v_proj");
    reveal_strlit("gate_proj");
    assert(has_underscore_only_at(suffix, 'q', -1)) by {
        assert forall|q: int|
            0 < q < suffix.len() && #[trigger] suffix[q] == '_' && suffix[q - 1]
                == 'q' implies q == -1 by {
            assert(q == 0 || q == 1 || q == 2 || q == 3 || q == 4 || q == 5 || q == 6 || q == 7 ||
                q == 8 || q == 9 || q == 10 || q == 11 || q == 12 || q == 13 || q == 14 ||
                q == 15 || q == 16 || q == 17 || q == 18 || q == 19);
        }
    }
    lemma_key(i, suffix, "q_proj"@, 1, -1);
    assert(has_underscore_only_at(suffix, 'k', -1)) by {
        assert forall|q: int|
            0 < q < suffix.len() && #[trigger] suffix[q] == '_' && suffix[q - 1]
                == 'k' implies q == -1 by {
            assert(q == 0 || q == 1 || q == 2 || q == 3 || q == 4 || q == 5 || q == 6 || q == 7 ||
                q == 8 || q == 9 || q == 10 || q == 11 || q == 12 || q == 13 || q == 14 ||
                q == 15 || q == 16 || q == 17 || q == 18 || q == 19);
        }
    }
    lemma_key(i, suffix, "k_proj"@, 1, -1);
    assert(has_underscore_only_at(suffix, 'v', -1)) by {
        assert forall|q: int|
            0 < q < suffix.len() && #[trigger] suffix[q] == '_' && suffix[q - 1]
                == 'v' implies q == -1 by {
            assert(q == 0 || q == 1 || q == 2 || q == 3 || q == 4 || q == 5 || q == 6 || q == 7 ||
                q == 8 || q == 9 || q == 10 || q == 11 || q == 12 || q == 13 || q == 14 ||
                q == 15 || q == 16 || q == 17 || q == 18 || q == 19);
        }
    }
    lemma_key(i, suffix, "v_proj"@, 1, -1);
    assert(has_underscore_only_at(suffix, 'e', 8)) by {
        assert forall|q: int|
            0 < q < suffix.len() && #[trigger] suffix[q] == '_' && suffix[q - 1]
                == 'e' implies q == 8 by {
            assert(q == 0 || q == 1 || q == 2 || q == 3 || q == 4 || q == 5 || q == 6 || q == 7 ||
                q == 8 || q == 9 || q == 10 || q == 11 || q == 12 || q == 13 || q == 14 ||
                q == 15 || q == 16 || q == 17 || q == 18 || q == 19);
        }
    }
    lemma_key(i, suffix, "gate_proj"@, 4, 8);
    let name = qwen3_laws::name_in_layer(i, suffix);
    assert forall|k: int, q: int| 0 <= k < 3 implies !#[trigger] qwen3_laws::stands_at(
        name,
        modules[k].key,
        q,
    ) by {
        assert(k == 0 || k == 1 || k == 2);
    }
    assert(suffix.subrange(4, 13) =~= key);
    lemma_stands(i, suffix, key, 4);
    lemma_renamed(i, suffix, key, "gate_up_proj"@, 4);
    assert(suffix.take(4) + "gate_up_proj"@ + suffix.skip(13) =~= "mlp.gate_up_proj.weight"@);
    qwen3_laws::packed_tensors_go_to_the_packed_parameter(
        name,
        modules,
        3,
        suffix_start(i) + 4,
    );
}

proof fn lemma_upward(i: nat, modules: Seq<PackedView>)
    requires
        are_packed_so(modules),
    ensures
        loader::param_of(qwen3_laws::name_in_layer(i, "mlp.up_proj.weight"@), modules, 0) == (
            qwen3_laws::name_in_layer(i, "mlp.gate_up_proj.weight"@),
            Some(ShardId::Index(1)),
        ),
{
    let suffix = "mlp.up_proj.weight"@;
    let key = "up_proj"@;
    reveal_strlit("mlp.up_proj.weight");
    reveal_strlit("mlp.gate_up_proj.weight");
    reveal_strlit("gate_up_proj");
    reveal_strlit("q_proj");
    reveal_strlit("k_proj");
    reveal_strlit("v_proj");
    reveal_strlit("gate_proj");
    reveal_strlit("up_proj");
    assert(has_underscore_only_at(suffix, 'q', -1)) by {
        assert forall|q: int|
            0 < q < suffix.len() && #[trigger] suffix[q] == '_' && suffix[q - 1]
                == 'q' implies q == -1 by {
            assert(q == 0 || q == 1 || q == 2 || q == 3 || q == 4 || q == 5 || q == 6 || q == 7 ||
                q == 8 || q == 9 || q == 10 || q == 11 || q == 12 || q == 13 || q == 14 ||
                q == 15 || q == 16 || q == 17);
        }
    }
    lemma_key(i, suffix, "q_proj"@, 1, -1);
    assert(has_underscore_only_at(suffix, 'k', -1)) by {
        assert forall|q: int|
            0 < q < suffix.len() && #[trigger] suffix[q] == '_' && suffix[q - 1]
                == 'k' implies q == -1 by {
            assert(q == 0 || q == 1 || q == 2 || q == 3 || q == 4 || q == 5 || q == 6 || q == 7 ||
                q == 8 || q == 9 || q == 10 || q == 11 || q == 12 || q == 13 || q == 14 ||
                q == 15 || q == 16 || q == 17);
        }
    }
    lemma_key(i, suffix, "k_proj"@, 1, -1);
    assert(has_underscore_only_at(suffix, 'v', -1)) by {
        assert forall|q: int|
            0 < q < suffix.len() && #[trigger] suffix[q] == '_' && suffix[q - 1]
                == 'v' implies q == -1 by {
            assert(q == 0 || q == 1 || q == 2 || q == 3 || q == 4 || q == 5 || q == 6 || q == 7 ||
                q == 8 || q == 9 || q == 10 || q == 11 || q == 12 || q == 13 || q == 14 ||
                q == 15 || q == 16 || q == 17);
        }
    }
    lemma_key(i, suffix, "v_proj"@, 1, -1);
    assert(has_underscore_only_at(suffix, 'e', -1)) by {
        assert forall|q: int|
            0 < q < suffix.len() && #[trigger] suffix[q] == '_' && suffix[q - 1]
                == 'e' implies q == -1 by {
            assert(q == 0 || q == 1 || q == 2 || q == 3 || q == 4 || q == 5 || q == 6 || q == 7 ||
                q == 8 || q == 9 || q == 10 || q == 11 || q == 12 || q == 13 || q == 14 ||
                q == 15 || q == 16 || q == 17);
        }
    }
    lemma_key(i, suffix, "gate_proj"@, 4, -1);
    assert(has_underscore_only_at(suffix, 'p', 6)) by {
        assert forall|q: int|
            0 < q < suffix.len() && #[trigger] suffix[q] == '_' && suffix[q - 1]
                == 'p' implies q == 6 by {
            assert(q == 0 || q == 1 || q == 2 || q == 3 || q == 4 || q == 5 || q == 6 || q == 7 ||
                q == 8 || q == 9 || q == 10 || q == 11 || q == 12 || q == 13 || q == 14 ||
                q == 15 || q == 16 || q == 17);
        }
    }
    lemma_key(i, suffix, "up_proj"@, 2, 6);
    let name = qwen3_laws::name_in_layer(i, suffix);
    assert forall|k: int, q: int| 0 <= k < 4 implies !#[trigger] qwen3_laws::stands_at(
        name,
        modules[k].key,
        q,
    ) by {
        assert(k == 0 || k == 1 || k == 2 || k == 3);
    }
    assert(suffix.subrange(4, 11) =~= key);
    lemma_stands(i, suffix, key, 4);
    lemma_renamed(i, suffix, key, "gate_up_proj"@, 4);
    assert(suffix.take(4) + "gate_up_proj"@ + suffix.skip(11) =~= "mlp.gate_up_proj.weight"@);
    qwen3_laws::packed_tensors_go_to_the_packed_parameter(
        name,
        modules,
        4,
        suffix_start(i) + 4,
    );
}

/// The tensors of the separate projections of every layer are the parts of the packed ones: queries,
/// keys and values by name, the gating and the upward projection by number.
pub proof fn projections_are_parts_of_the_packed_ones(i: nat, modules: Seq<PackedView>)
    requires
        are_packed_so(modules),
    ensures
        loader::param_of(qwen3_laws::name_in_layer(i, "self_attn.q_proj.weight"@), modules, 0) == (
            qwen3_laws::name_in_layer(i, "self_attn.qkv_proj.weight"@),
            Some(ShardId::Name("q")),
        ),
        loader::param_of(qwen3_laws::name_in_layer(i, "self_attn.k_proj.weight"@), modules, 0) == (
            qwen3_laws::name_in_layer(i, "self_attn.qkv_proj.weight"@),
            Some(ShardId::Name("k")),
        ),
        loader::param_of(qwen3_laws::name_in_layer(i, "self_attn.v_proj.weight"@), modules, 0) == (
            qwen3_laws::name_in_layer(i, "self_attn.qkv_proj.weight"@),
            Some(ShardId::Name("v")),
        ),
        loader::param_of(qwen3_laws::name_in_layer(i, "mlp.gate_proj.weight"@), modules, 0) == (
            qwen3_laws::name_in_layer(i, "mlp.gate_up_proj.weight"@),
            Some(ShardId::Index(0)),
        ),
        loader::param_of(qwen3_laws::name_in_layer(i, "mlp.up_proj.weight"@), modules, 0) == (
            qwen3_laws::name_in_layer(i, "mlp.gate_up_proj.weight"@),
            Some(ShardId::Index(1)),
        ),
{
    lemma_queries(i, modules);
    lemma_keys(i, modules);
    lemma_values(i, modules);
    lemma_gating(i, modules);
    lemma_upward(i, modules);
}

} // verus!
