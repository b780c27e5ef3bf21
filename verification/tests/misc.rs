use rusty_opus::prof::{dump, name, reset, scope, Stage, INFO_FIRST, N};
use rusty_opus::silk::flp::sat16;

#[test]
fn sat16_clamps() {
    assert_eq!(sat16(0), 0);
    assert_eq!(sat16(32767), 32767);
    assert_eq!(sat16(32768), 32767);
    assert_eq!(sat16(-32768), -32768);
    assert_eq!(sat16(-40000), -32768);
    assert_eq!(sat16(i32::MAX), 32767);
    assert_eq!(sat16(i32::MIN), -32768);
    assert_eq!(sat16(1234), 1234);
}

#[test]
fn profiler_is_inert() {
    reset();
    {
        let _g = scope(Stage::Total);
        let _h = scope(Stage::SilkNsq);
    }
    dump();
    assert_eq!(name(0), "");
    assert_eq!(N, 21);
    assert_eq!(INFO_FIRST, Stage::SilkNsqLpc.index());
    assert_eq!(Stage::Total.index(), 20);
    assert_eq!(Stage::Resample.index(), 0);
}
