//! Properties of the configuration model that span several operations.
use vstd::prelude::*;
use crate::config_model::{ConfigStore, LayeredConfig, Layer, ConfigValue, Plain, is_build_key, wanted_tags};
use crate::config::plain_map;
use crate::strmap::{StrMap, lemma_pairs_map_at};
use crate::text::lemma_sorted_listing_unique;
use crate::toml_emit::{serialized, plain_pairs};

verus! {

/// Most explicit layer wins: after a successful write of `value` under
/// `key` (the external layer gains it, the other layers are as they
/// were), a read-back yields `value` unless the injected layer sets
/// `key`, in which case the injected value still wins.
pub proof fn lemma_write_then_read(before: LayeredConfig, after: LayeredConfig, key: Seq<char>, value: ConfigValue)
    requires
        after.external@ == before.external@.insert(key, value),
        after.inlined == before.inlined,
        after.injected == before.injected,
    ensures
        after.winner(key) is Some,
        !before.injected@.contains_key(key) ==> after.winner_value(key) == value@ && after.winner_layer(
            key,
        ) == Layer::A,
        before.injected@.contains_key(key) ==> after.winner_value(key) == before.injected@[key]@
            && after.winner_layer(key) == Layer::C,
        forall|k: Seq<char>| k != key ==> #[trigger] after.winner(k) == before.winner(k),
{
}

/// The pure-internal layer `D` never supplies an effective value, and
/// every runtime key has exactly one winning layer among `b`, `a`, `c`.
pub proof fn lemma_layer_d_never_wins(c: LayeredConfig, key: Seq<char>)
    ensures
        c.key_set().contains(key) <==> c.winner(key) is Some,
        c.winner(key) matches Some(w) ==> w.1 != Layer::D,
{
}

/// Tiered transparency: at a read level meeting every runtime item's
/// read tier, an untagged query lists the complete runtime key set.
pub proof fn lemma_top_level_lists_everything(s: ConfigStore, level: i64)
    requires
        forall|k: Seq<char>| #[trigger] s.layers().key_set().contains(k) ==> s.read_level_of(k) <= level,
    ensures
        s.query_set(None, level) == s.layers().key_set(),
{
    assert(wanted_tags(None) =~= Set::<Seq<char>>::empty());
    assert(s.query_set(None, level) =~= s.layers().key_set());
}

/// Each read level sees exactly the runtime items whose read tier it
/// meets; raising the level never hides an item.
pub proof fn lemma_level_range(s: ConfigStore, lo: i64, hi: i64)
    requires
        lo <= hi,
    ensures
        forall|k: Seq<char>| #[trigger] s.query_set(None, lo).contains(k) <==> s.layers().key_set().contains(k)
            && s.read_level_of(k) <= lo,
        s.query_set(None, lo).subset_of(s.query_set(None, hi)),
{
    assert(wanted_tags(None) =~= Set::<Seq<char>>::empty());
}

/// The tag filter and the read tier are orthogonal: a tagged query at a
/// level lists what the tag filter lists at the top level, restricted to
/// what the level sees without tags.
pub proof fn lemma_tags_and_tier_orthogonal(s: ConfigStore, tags: Option<&[&str]>, level: i64, top: i64)
    requires
        forall|k: Seq<char>| #[trigger] s.layers().key_set().contains(k) ==> s.read_level_of(k) <= top,
    ensures
        s.query_set(tags, level) == s.query_set(tags, top).intersect(s.query_set(None, level)),
{
    assert(wanted_tags(None) =~= Set::<Seq<char>>::empty());
    assert(s.query_set(tags, level) =~= s.query_set(tags, top).intersect(s.query_set(None, level)));
}

/// Reading and listing agree: a key that is not a build-toolchain key is
/// listed by an untagged query at a level exactly when a read at that
/// level succeeds.
pub proof fn lemma_read_matches_listing(s: ConfigStore, key: Seq<char>, level: i64)
    requires
        !is_build_key(key),
    ensures
        s.query_set(None, level).contains(key) <==> (s.visible(key, level) && s.layers().winner(key) is Some),
{
    assert(wanted_tags(None) =~= Set::<Seq<char>>::empty());
}


/// Embedding hides the file, never the items: every key of the data
/// held as the inlined layer is a runtime key, listed like any other.
pub proof fn lemma_inlined_keys_enumerate(c: LayeredConfig, data: Map<Seq<char>, Plain>)
    requires
        plain_map(c.inlined@) == data,
    ensures
        forall|k: Seq<char>| #[trigger] data.contains_key(k) ==> c.key_set().contains(k),
{
    assert forall|k: Seq<char>| #[trigger] data.contains_key(k) implies c.key_set().contains(k) by {
        assert(plain_map(c.inlined@).dom().contains(k));
    }
}


/// The TOML text written for a flat map depends only on the data it
/// holds, never on the order in which its keys were set.
pub proof fn lemma_written_text_depends_only_on_data(m1: StrMap<ConfigValue>, m2: StrMap<ConfigValue>)
    requires
        m1.sorted(),
        m2.sorted(),
        plain_map(m1@) == plain_map(m2@),
    ensures
        plain_pairs(m1.pairs()) == plain_pairs(m2.pairs()),
        serialized(plain_pairs(m1.pairs())) == serialized(plain_pairs(m2.pairs())),
{
    m1.lemma_view_facts();
    m2.lemma_view_facts();
    assert(m1@.dom() == plain_map(m1@).dom());
    assert(m2@.dom() == plain_map(m2@).dom());
    assert forall|k: Seq<char>| m1.key_seq().contains(k) <==> m2.key_seq().contains(k) by {
        assert(m1@.contains_key(k) <==> m1.key_seq().contains(k));
        assert(m2@.contains_key(k) <==> m2.key_seq().contains(k));
        assert(m1@.contains_key(k) <==> plain_map(m1@).contains_key(k));
        assert(m2@.contains_key(k) <==> plain_map(m2@).contains_key(k));
    }
    lemma_sorted_listing_unique(m1.key_seq(), m2.key_seq());
    let p1 = plain_pairs(m1.pairs());
    let p2 = plain_pairs(m2.pairs());
    assert forall|i: int| 0 <= i < p1.len() implies p1[i] == p2[i] by {
        assert(m1.key_seq()[i] == m1.pairs()[i].0);
        assert(m2.key_seq()[i] == m2.pairs()[i].0);
        lemma_pairs_map_at(m1.pairs(), i);
        lemma_pairs_map_at(m2.pairs(), i);
        let k = m1.pairs()[i].0;
        assert(plain_map(m1@)[k] == m1@[k]@);
        assert(plain_map(m2@)[k] == m2@[k]@);
    }
    assert(p1 =~= p2);
}

} // verus!
