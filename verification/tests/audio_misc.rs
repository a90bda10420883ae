use toybox::audio::util::PitchClass;
use toybox::audio::scratch_buffer_cache::ScratchBufferCache;
use toybox::audio::producer::{free_capacity, should_produce_block};
use toybox::audio::generator::Noise;
use toybox::audio::nodes::{SamplerNode, SoundId};
use toybox::audio::effect::{EffectStage, EffectNode, StereoEffectNode};
use toybox::audio::parameter::NodeBuilderParameter;
use toybox::audio::node_builder::NodeBuilderTuple;
use toybox::audio::intermediate_buffer_cache::IntermediateBufferCache;

#[test]
fn pitch_class_of_midi_notes() {
    assert_eq!(PitchClass::from_midi(60), PitchClass::C);
    assert_eq!(PitchClass::from_midi(69), PitchClass::A);
    assert_eq!(PitchClass::from_midi(61), PitchClass::Cs);
    assert_eq!(PitchClass::from_midi(-1), PitchClass::B);
    assert_eq!(PitchClass::from_midi(-12), PitchClass::C);
}

#[test]
fn midi_notes_of_pitch_classes() {
    assert_eq!(PitchClass::A.to_midi(4), 69);
    assert_eq!(PitchClass::C.to_midi(-1), 0);
    assert_eq!(PitchClass::C.to_midi(0), 12);
    assert_eq!(PitchClass::B.to_midi(-2), -1);
}

#[test]
fn pitch_class_survives_a_trip_through_midi() {
    let all = [
        PitchClass::C, PitchClass::Cs, PitchClass::D, PitchClass::Ds, PitchClass::E, PitchClass::F,
        PitchClass::Fs, PitchClass::G, PitchClass::Gs, PitchClass::A, PitchClass::As, PitchClass::B,
    ];
    for pc in all {
        for octave in [-3, -1, 0, 4, 9] {
            assert_eq!(PitchClass::from_midi(pc.to_midi(octave)), pc);
        }
    }
}

#[test]
fn pitch_class_names() {
    assert_eq!(PitchClass::Cs.name(), "C#");
    assert_eq!(PitchClass::G.name(), "G");
}

#[test]
fn noise_sequence_is_fixed() {
    let mut n = Noise::new();
    assert_eq!(n.next_raw(), 1460850314);
    assert_eq!(n.next_raw(), -2023048171);
    assert_eq!(n.next_raw(), 1051200947);
}

#[test]
fn sampler_plays_through_its_sound_once() {
    let mut s = SamplerNode::new(SoundId(3));
    assert_eq!(s.position, 0);
    assert!(!s.finished_playing(10));
    assert_eq!(s.next_block(10, 4), Some((0, 4)));
    assert_eq!(s.next_block(10, 4), Some((4, 4)));
    // The last block is cut short and padded with silence.
    assert_eq!(s.next_block(10, 4), Some((8, 2)));
    assert_eq!(s.position, 12);
    assert!(s.finished_playing(10));
    assert_eq!(s.next_block(10, 4), None);
    assert_eq!(s.position, 12);
}

#[test]
fn effect_wrappers_hold_their_parts() {
    let stage = EffectStage::new(1u8, 2u16);
    assert_eq!((stage.inner, stage.effect), (1, 2));
    assert_eq!(EffectNode::new(5i32).effect, 5);
    let stereo = StereoEffectNode::new(vec![1, 2]);
    assert_eq!(stereo.left, vec![1, 2]);
    assert_eq!(stereo.right, vec![1, 2]);
    assert_eq!(NodeBuilderParameter(7u8).0, 7);
}

#[test]
fn tuples_combine_into_add_and_multiply_nodes() {
    let add = (1u8, 2u8).add();
    assert_eq!(add.0, (1, 2));
    let mul = (3u8,).multiply();
    assert_eq!(mul.0, (3,));
}

#[test]
fn intermediate_buffer_is_reclaimed_after_its_last_read() {
    let mut cache: IntermediateBufferCache<&'static str> = IntermediateBufferCache::new(512);
    assert_eq!(cache.buffer_size(), 512);
    cache.post_buffer(7, "seven", 2);
    cache.post_buffer(3, "three", 1);
    assert_eq!(cache.get_buffer(7), Some(&"seven"));
    assert_eq!(cache.get_buffer(3), Some(&"three"));
    assert_eq!(cache.get_buffer(5), None);
    cache.mark_used(7);
    assert_eq!(cache.get_buffer(7), Some(&"seven"));
    cache.mark_used(7);
    assert_eq!(cache.get_buffer(7), None);
    assert_eq!(cache.take_unused(), Some("seven"));
    assert_eq!(cache.take_unused(), None);
    // Marking a node without a buffer changes nothing.
    cache.mark_used(9);
    assert_eq!(cache.get_buffer(3), Some(&"three"));
}

#[test]
fn buffer_posted_for_no_reads_is_reclaimed_at_once() {
    let mut cache: IntermediateBufferCache<u32> = IntermediateBufferCache::new(4);
    cache.post_buffer(1, 10, 0);
    assert_eq!(cache.get_buffer(1), None);
    assert_eq!(cache.take_unused(), Some(10));
}

#[test]
fn reposting_reclaims_the_earlier_buffer() {
    let mut cache: IntermediateBufferCache<u32> = IntermediateBufferCache::new(4);
    cache.post_buffer(1, 10, 3);
    cache.post_buffer(1, 11, 1);
    assert_eq!(cache.get_buffer(1), Some(&11));
    assert_eq!(cache.take_unused(), Some(10));
}

#[test]
fn marking_all_unused_reclaims_in_node_order() {
    let mut cache: IntermediateBufferCache<u32> = IntermediateBufferCache::new(4);
    cache.post_buffer(9, 90, 1);
    cache.post_buffer(2, 20, 1);
    cache.post_buffer(5, 50, 4);
    cache.mark_all_unused();
    assert_eq!(cache.get_buffer(5), None);
    assert_eq!(cache.take_unused(), Some(90));
    assert_eq!(cache.take_unused(), Some(50));
    assert_eq!(cache.take_unused(), Some(20));
}

#[test]
fn new_noise_generators_give_the_same_samples() {
    let mut a = Noise::new();
    let mut b = Noise::new();
    for _ in 0..1000 {
        assert_eq!(a.next_raw(), b.next_raw());
    }
}

#[test]
fn scratch_buffers_are_handed_out_in_order_after_each_reset() {
    let mut c = ScratchBufferCache::new(512);
    assert_eq!(c.buffer_size(), 512);
    c.reset(2, 1);
    assert_eq!((c.buffer_count(false), c.buffer_count(true)), (2, 1));
    assert_eq!(c.new_buffer(false), 0);
    assert_eq!(c.new_buffer(true), 0);
    assert_eq!(c.new_buffer(false), 1);
    assert!(!c.has_free(false));
    assert!(!c.has_free(true));
    // A smaller reset keeps the buffers there are and starts over.
    c.reset(1, 3);
    assert_eq!((c.buffer_count(false), c.buffer_count(true)), (2, 3));
    assert_eq!(c.new_buffer(false), 0);
    assert!(c.has_free(false));
}

#[test]
fn the_producer_renders_at_most_five_blocks_while_there_is_room() {
    assert_eq!(free_capacity(100, 30), 70);
    assert_eq!(free_capacity(100, 130), 0);
    assert!(should_produce_block(0, 100, 0, 64));
    assert!(!should_produce_block(0, 100, 40, 64));
    assert!(should_produce_block(4, 10_000, 0, 64));
    assert!(!should_produce_block(5, 10_000, 0, 64));
}

#[test]
fn a_posted_buffer_is_read_until_its_last_use_then_reused() {
    let mut cache: IntermediateBufferCache<u32> = IntermediateBufferCache::new(64);
    cache.post_buffer(9, 900, 3);
    cache.post_buffer(4, 400, 1);
    for _ in 0..2 {
        cache.mark_used(9);
        assert_eq!(cache.get_buffer(9), Some(&900));
    }
    cache.mark_used(9);
    assert_eq!(cache.get_buffer(9), None);
    // Further reads change nothing; the other node keeps its buffer.
    cache.mark_used(9);
    assert_eq!(cache.get_buffer(4), Some(&400));
    assert_eq!(cache.take_unused(), Some(900));
    assert_eq!(cache.take_unused(), None);
}
