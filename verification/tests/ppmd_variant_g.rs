use newtua_stuffit::sitx::ppmd::context::{
    ctx_one_state, ctx_states, ctx_suffix, ctx_summ_freq, decode_bin_symbol, set_state_freq, state_at, state_freq,
    See2Context,
};
use newtua_stuffit::sitx::ppmd::variant_g::{next_byte, start};

#[test]
fn start_and_restart_do_not_panic_and_seed_min_context() {
    let data = vec![0u8; 64];
    let (_, model) = start(&data, 1 << 16, 4, true);
    assert!(model.min_context != 0);
    assert!(model.max_context != 0);
    assert_eq!(model.min_context, model.med_context);
}

#[test]
fn root_context_summ_freq_and_first_symbol_freqs_match_brimstone_flag() {
    let data = vec![0u8; 64];
    let (_, model) = start(&data, 1 << 16, 4, true);
    let mut ctx = model.min_context;
    loop {
        let suffix = ctx_suffix(&model.core.heap, ctx);
        if suffix == 0 {
            break;
        }
        ctx = suffix;
    }
    assert_eq!(ctx_summ_freq(&model.core.heap, ctx), 385);
    let states = ctx_states(&model.core.heap, ctx);
    assert_eq!(state_freq(&model.core.heap, state_at(states, 0)), 2);
    assert_eq!(state_freq(&model.core.heap, state_at(states, 0x80)), 1);
}

#[test]
fn plain_variant_g_root_uses_257_and_uniform_freq_one() {
    let data = vec![0u8; 64];
    let (_, model) = start(&data, 1 << 16, 4, false);
    let mut ctx = model.min_context;
    loop {
        let suffix = ctx_suffix(&model.core.heap, ctx);
        if suffix == 0 {
            break;
        }
        ctx = suffix;
    }
    assert_eq!(ctx_summ_freq(&model.core.heap, ctx), 257);
    let states = ctx_states(&model.core.heap, ctx);
    assert_eq!(state_freq(&model.core.heap, state_at(states, 0)), 1);
}

#[test]
fn next_byte_runs_to_completion_on_arbitrary_input_without_panicking() {
    let data: Vec<u8> = (0..4096u32)
        .map(|i| i.wrapping_mul(2654435761) as u8)
        .collect();
    let (mut coder, mut model) = start(&data, 1 << 16, 4, true);
    let mut produced = 0;
    for _ in 0..2000 {
        let b = next_byte(&mut coder, &mut model);
        if b < 0 {
            break;
        }
        produced += 1;
    }
    assert!(produced > 0, "must decode at least one byte before EOF");
}

#[test]
fn see2_means_take_their_share_of_the_sum() {
    let mut see = See2Context::make(10, 4);
    assert_eq!((see.summ, see.shift, see.count), (80, 3, 4));
    assert_eq!(see.mean(), 10);
    assert_eq!(see.summ, 70);

    let mut large = See2Context { summ: 0xffff, shift: 3, count: 1 };
    assert_eq!(large.mean(), 0x1fff);
    assert_eq!(large.summ, 0xffff - 0x1fff);
    let mut masked = See2Context { summ: 0xffff, shift: 3, count: 1 };
    assert_eq!(masked.mean_masked(), 0x3ff);
    assert_eq!(masked.summ, 0xffff - 0x1fff);

    let mut none = See2Context { summ: 5, shift: 3, count: 1 };
    assert_eq!(none.mean(), 1);
    assert_eq!(none.summ, 5);
}

#[test]
fn single_state_is_decoded_by_either_rule_and_up_to_the_limit() {
    for alt in [false, true] {
        let data = [0u8; 16];
        let (mut coder, mut model) = start(&data, 1 << 16, 4, true);
        let ctx = model.min_context;
        let state = ctx_one_state(ctx);
        set_state_freq(&mut model.core.heap, state, 9);
        let mut bs = 0x2000u16;
        decode_bin_symbol(&mut coder, &mut model.core, ctx, &mut bs, 10, alt);
        assert_eq!(bs, 0x2000 + 128 - 64);
        assert_eq!(model.core.prev_success, 1);
        assert_eq!(model.core.found_state, state);
        assert_eq!(state_freq(&model.core.heap, state), 10);
        decode_bin_symbol(&mut coder, &mut model.core, ctx, &mut bs, 10, alt);
        assert_eq!(state_freq(&model.core.heap, state), 10);

        let ones = [0xffu8; 16];
        let (mut coder, mut model) = start(&ones, 1 << 16, 4, true);
        let ctx = model.min_context;
        let mut bs = 0x2000u16;
        decode_bin_symbol(&mut coder, &mut model.core, ctx, &mut bs, 10, alt);
        assert_eq!(bs, 0x2000 - 64);
        assert_eq!(model.core.prev_success, 0);
        assert_eq!(model.core.found_state, 0);
    }
}
