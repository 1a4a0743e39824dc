use kuzu_storage::csr::CsrIndex;
use kuzu_storage::page::FileHandle;
use std::path::PathBuf;
use std::sync::{Arc, RwLock};

#[test]
fn csr_lists_the_neighbours_of_a_node() {
    let fh = FileHandle::new(PathBuf::from("rel.db"), 4096, None);
    let mut csr = CsrIndex::new(Arc::new(RwLock::new(fh)));
    assert_eq!(csr.get_neighbors(1), Ok(vec![]));
    assert_eq!(csr.add_edge(1, 2), Ok(()));
    assert_eq!(csr.add_edge(2, 3), Ok(()));
    assert_eq!(csr.add_edge(1, 3), Ok(()));
    assert_eq!(csr.get_neighbors(1), Ok(vec![2, 3]));
    assert_eq!(csr.get_neighbors(7), Ok(vec![]));
    let copy = csr.clone();
    assert_eq!(copy.get_neighbors(2), Ok(vec![3]));
}
