use merkle::tree::MerkleTree;

#[test]
fn main_test_merkle_depth_0() -> Result<(), String> {
    let mut mt = MerkleTree::new(0, 4506850079084802999);

    mt.add_data(&String::from("foo")).unwrap();

    assert_eq!(mt.digest(0, 0), mt.root_hash());

    Ok(())
}

#[test]
fn test_merkle_depth_1() -> Result<(), String> {
    let mut mt = MerkleTree::new(1, 17075777630381501106);

    mt.add_data(&String::from("foo")).unwrap();
    mt.add_data(&String::from("bar")).unwrap();

    assert_eq!(mt.digest(0, 0), mt.root_hash());

    Ok(())
}

#[test]
fn test_merkle_proof_depth_1() -> Result<(), String> {
    let mut mt = MerkleTree::new(1, 17075777630381501106);

    mt.add_data(&String::from("foo")).unwrap();
    mt.add_data(&String::from("bar")).unwrap();

    assert_eq!(
        mt.generate_proof(0).unwrap(),
        [(17075777630381501106, true), (3676438629107045207, true)]
    );
    assert_eq!(
        mt.generate_proof(1).unwrap(),
        [(17075777630381501106, true), (4506850079084802999, false)]
    );

    Ok(())
}

#[test]
fn test_merkle_proof_depth_2() -> Result<(), String> {
    let mut mt = MerkleTree::new(2, 4778819754073447529);

    mt.add_data(&String::from("foo")).unwrap();
    mt.add_data(&String::from("bar")).unwrap();
    mt.add_data(&String::from("baz")).unwrap();
    mt.add_data(&String::from("yup")).unwrap();

    assert_eq!(
        mt.generate_proof(0).unwrap(),
        [
            (4778819754073447529, true),
            (9268692565628018440, true),
            (3676438629107045207, true)
        ]
    );
    assert_eq!(
        mt.generate_proof(1).unwrap(),
        [
            (4778819754073447529, true),
            (9268692565628018440, true),
            (4506850079084802999, false)
        ]
    );
    assert_eq!(
        mt.generate_proof(2).unwrap(),
        [
            (4778819754073447529, true),
            (17075777630381501106, false),
            (1968634300370677998, true)
        ]
    );
    assert_eq!(
        mt.generate_proof(3).unwrap(),
        [
            (4778819754073447529, true),
            (17075777630381501106, false),
            (16260972211344176173, false)
        ]
    );

    Ok(())
}

#[test]
fn test_merkle_proof_depth_3() -> Result<(), String> {
    let mut mt = MerkleTree::new(3, 1556255166675498662);

    mt.add_data(&String::from("foo")).unwrap();
    mt.add_data(&String::from("bar")).unwrap();
    mt.add_data(&String::from("baz")).unwrap();
    mt.add_data(&String::from("yup")).unwrap();
    mt.add_data(&String::from("maw")).unwrap();
    mt.add_data(&String::from("wap")).unwrap();
    mt.add_data(&String::from("pit")).unwrap();
    mt.add_data(&String::from("fos")).unwrap();

    assert_eq!(
        mt.generate_proof(0).unwrap(),
        [
            (1556255166675498662, true),
            (1292560851973962312, true),
            (9268692565628018440, true),
            (3676438629107045207, true)
        ]
    );
    assert_eq!(
        mt.generate_proof(1).unwrap(),
        [
            (1556255166675498662, true),
            (1292560851973962312, true),
            (9268692565628018440, true),
            (4506850079084802999, false)
        ]
    );
    assert_eq!(
        mt.generate_proof(2).unwrap(),
        [
            (1556255166675498662, true),
            (1292560851973962312, true),
            (17075777630381501106, false),
            (1968634300370677998, true)
        ]
    );
    assert_eq!(
        mt.generate_proof(3).unwrap(),
        [
            (1556255166675498662, true),
            (1292560851973962312, true),
            (17075777630381501106, false),
            (16260972211344176173, false)
        ]
    );
    assert_eq!(
        mt.generate_proof(4).unwrap(),
        [
            (1556255166675498662, true),
            (4778819754073447529, false),
            (6756623144268557643, true),
            (14416090190412621920, true)
        ]
    );
    assert_eq!(
        mt.generate_proof(5).unwrap(),
        [
            (1556255166675498662, true),
            (4778819754073447529, false),
            (6756623144268557643, true),
            (5587210449854392903, false)
        ]
    );
    assert_eq!(
        mt.generate_proof(6).unwrap(),
        [
            (1556255166675498662, true),
            (4778819754073447529, false),
            (10865386958110225586, false),
            (9147698590242891024, true)
        ]
    );
    assert_eq!(
        mt.generate_proof(7).unwrap(),
        [
            (1556255166675498662, true),
            (4778819754073447529, false),
            (10865386958110225586, false),
            (10714775279812270610, false)
        ]
    );

    Ok(())
}

#[test]
fn test_merkle_verify_depth_1() -> Result<(), String> {
    let mut mt = MerkleTree::new(1, 17075777630381501106);

    mt.add_data(&String::from("foo")).unwrap();
    mt.add_data(&String::from("bar")).unwrap();

    assert_eq!(
        mt.verify(&String::from("foo"), &mt.generate_proof(0).unwrap()),
        true
    );
    assert_eq!(
        mt.verify(&String::from("bar"), &mt.generate_proof(1).unwrap()),
        true
    );
    assert_eq!(
        mt.verify(&String::from("bar"), &mt.generate_proof(0).unwrap()),
        false
    );
    assert_eq!(
        mt.verify(&String::from("foo"), &mt.generate_proof(1).unwrap()),
        false
    );

    Ok(())
}

#[test]
fn test_merkle_verify_depth_2() -> Result<(), String> {
    let mut mt = MerkleTree::new(2, 4778819754073447529);

    mt.add_data(&String::from("foo")).unwrap();
    mt.add_data(&String::from("bar")).unwrap();
    mt.add_data(&String::from("baz")).unwrap();
    mt.add_data(&String::from("yup")).unwrap();

    assert_eq!(
        mt.verify(&String::from("foo"), &mt.generate_proof(0).unwrap()),
        true
    );
    assert_eq!(
        mt.verify(&String::from("bar"), &mt.generate_proof(1).unwrap()),
        true
    );
    assert_eq!(
        mt.verify(&String::from("baz"), &mt.generate_proof(2).unwrap()),
        true
    );
    assert_eq!(
        mt.verify(&String::from("yup"), &mt.generate_proof(3).unwrap()),
        true
    );
    assert_eq!(
        mt.verify(&String::from("bar"), &mt.generate_proof(0).unwrap()),
        false
    );
    assert_eq!(
        mt.verify(&String::from("baz"), &mt.generate_proof(1).unwrap()),
        false
    );
    assert_eq!(
        mt.verify(&String::from("yup"), &mt.generate_proof(2).unwrap()),
        false
    );
    assert_eq!(
        mt.verify(&String::from("foo"), &mt.generate_proof(3).unwrap()),
        false
    );

    Ok(())
}

#[test]
fn test_merkle_verify_depth_3() -> Result<(), String> {
    let mut mt = MerkleTree::new(3, 1556255166675498662);

    mt.add_data(&String::from("foo")).unwrap();
    mt.add_data(&String::from("bar")).unwrap();
    mt.add_data(&String::from("baz")).unwrap();
    mt.add_data(&String::from("yup")).unwrap();
    mt.add_data(&String::from("maw")).unwrap();
    mt.add_data(&String::from("wap")).unwrap();
    mt.add_data(&String::from("pit")).unwrap();
    mt.add_data(&String::from("fos")).unwrap();

    assert_eq!(
        mt.verify(&String::from("foo"), &mt.generate_proof(0).unwrap()),
        true
    );
    assert_eq!(
        mt.verify(&String::from("bar"), &mt.generate_proof(1).unwrap()),
        true
    );
    assert_eq!(
        mt.verify(&String::from("baz"), &mt.generate_proof(2).unwrap()),
        true
    );
    assert_eq!(
        mt.verify(&String::from("yup"), &mt.generate_proof(3).unwrap()),
        true
    );
    assert_eq!(
        mt.verify(&String::from("maw"), &mt.generate_proof(4).unwrap()),
        true
    );
    assert_eq!(
        mt.verify(&String::from("wap"), &mt.generate_proof(5).unwrap()),
        true
    );
    assert_eq!(
        mt.verify(&String::from("pit"), &mt.generate_proof(6).unwrap()),
        true
    );
    assert_eq!(
        mt.verify(&String::from("fos"), &mt.generate_proof(7).unwrap()),
        true
    );
    assert_eq!(
        mt.verify(&String::from("bar"), &mt.generate_proof(0).unwrap()),
        false
    );
    assert_eq!(
        mt.verify(&String::from("baz"), &mt.generate_proof(1).unwrap()),
        false
    );
    assert_eq!(
        mt.verify(&String::from("yup"), &mt.generate_proof(2).unwrap()),
        false
    );
    assert_eq!(
        mt.verify(&String::from("maw"), &mt.generate_proof(3).unwrap()),
        false
    );
    assert_eq!(
        mt.verify(&String::from("wap"), &mt.generate_proof(4).unwrap()),
        false
    );
    assert_eq!(
        mt.verify(&String::from("pit"), &mt.generate_proof(5).unwrap()),
        false
    );
    assert_eq!(
        mt.verify(&String::from("fos"), &mt.generate_proof(6).unwrap()),
        false
    );
    assert_eq!(
        mt.verify(&String::from("foo"), &mt.generate_proof(7).unwrap()),
        false
    );

    Ok(())
}
