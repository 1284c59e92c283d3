use proptest::test_runner::TestRunner;
use sharded_slab::cfg::DefaultConfig;
use sharded_slab::page::{slot::Generation, Addr};
use sharded_slab::{Pack, Tid};

#[test]
fn tid_roundtrips() {
    let tids = 0usize..Tid::<DefaultConfig>::bits();
    TestRunner::default()
        .run(&tids, |tid| {
            let tid = Tid::<DefaultConfig>::from_usize(tid);
            let packed = tid.pack(0);
            assert_eq!(tid, Tid::from_packed(packed));
            Ok(())
        })
        .unwrap();
}

#[test]
fn idx_roundtrips() {
    let parts = (
        0usize..Tid::<DefaultConfig>::bits(),
        0usize..Generation::<DefaultConfig>::bits(),
        0usize..Addr::<DefaultConfig>::bits(),
    );
    TestRunner::default()
        .run(&parts, |(tid, gen, addr)| {
            let tid = Tid::<DefaultConfig>::from_usize(tid);
            let gen = Generation::<DefaultConfig>::from_usize(gen);
            let addr = Addr::<DefaultConfig>::from_usize(addr);
            let packed = tid.pack(gen.pack(addr.pack(0)));
            assert_eq!(addr, Addr::from_packed(packed));
            assert_eq!(gen, Generation::from_packed(packed));
            assert_eq!(tid, Tid::from_packed(packed));
            Ok(())
        })
        .unwrap();
}
