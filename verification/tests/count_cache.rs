//! The header count caches the length until it leaves the 16-bit range;
//! after that, a length query scans and re-caches once the count fits
//! again.

use listpack::Listpack;

#[test]
fn count_cache_transitions() {
    let mut lp = Listpack::new();
    for _ in 0..65534u32 {
        assert!(lp.append_int(7i64));
    }
    assert_eq!(lp.get_num_elements(), 65534);
    assert_eq!(lp.length(), 65534);

    // the count leaves the representable range: the field becomes the
    // unknown sentinel
    assert!(lp.append_int(7i64));
    assert_eq!(lp.get_num_elements(), 65535);
    assert_eq!(lp.length(), 65535);
    assert_eq!(lp.get_num_elements(), 65535);

    // deleting does not restore an exact field on its own
    let first = lp.first().expect("not empty");
    lp.delete(first);
    assert_eq!(lp.get_num_elements(), 65535);

    // a length query recounts and caches the now-representable value
    assert_eq!(lp.length(), 65534);
    assert_eq!(lp.get_num_elements(), 65534);
    assert_eq!(lp.length(), 65534);
}
