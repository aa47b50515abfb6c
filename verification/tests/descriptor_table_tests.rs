//! Descriptor table: budget accounting, eviction and exclusivity.

use lsm_core::descriptor_table::FileDescriptorTable;

#[test]
fn descriptor_table_limit() {
    let table = &mut FileDescriptorTable::new(2, 1);

    assert_eq!(0, table.size());

    table.insert(b"/data/1".to_vec(), b"1".to_vec());
    assert_eq!(0, table.size());

    {
        let g = table.access(&b"1".to_vec()).unwrap();
        assert_eq!(1, table.size());
        table.release(g);
    }

    table.insert(b"/data/2".to_vec(), b"2".to_vec());

    {
        assert_eq!(1, table.size());
        let g = table.access(&b"1".to_vec()).unwrap();
        table.release(g);
    }

    {
        let g = table.access(&b"2".to_vec()).unwrap();
        assert_eq!(2, table.size());
        table.release(g);
    }

    table.insert(b"/data/3".to_vec(), b"3".to_vec());
    assert_eq!(2, table.size());

    {
        let g = table.access(&b"3".to_vec()).unwrap();
        assert_eq!(2, table.size());
        table.release(g);
    }

    table.remove(&b"3".to_vec());
    assert_eq!(1, table.size());

    table.remove(&b"2".to_vec());
    assert_eq!(0, table.size());

    let _ = table.access(&b"1".to_vec()).unwrap();
    assert_eq!(1, table.size());
}

#[test]
fn descriptor_table_exclusive_guards() {
    let mut table = FileDescriptorTable::new(8, 2);
    table.insert(b"/data/seg".to_vec(), b"seg".to_vec());

    let g1 = table.access(&b"seg".to_vec()).unwrap();
    let g2 = table.access(&b"seg".to_vec()).unwrap();
    // two live guards on the same pool never share a descriptor
    assert_eq!(g1.fd.epoch, g2.fd.epoch);
    assert_ne!(g1.fd.slot, g2.fd.slot);

    // the pool has two descriptors, so a third take finds none free
    assert!(table.access(&b"seg".to_vec()).is_none());

    table.release(g1);
    let g3 = table.access(&b"seg".to_vec()).unwrap();
    table.release(g2);
    table.release(g3);
}

#[test]
fn descriptor_table_clear_closes_everything() {
    let mut table = FileDescriptorTable::new(4, 1);
    table.insert(b"/data/a".to_vec(), b"a".to_vec());
    let g = table.access(&b"a".to_vec()).unwrap();
    table.release(g);
    assert_eq!(1, table.size());
    table.clear();
    assert_eq!(0, table.size());
}
