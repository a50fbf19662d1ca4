use fraud_knn::models::FraudResponse;

#[test]
fn three_frauds_of_five_block_a_transaction() {
    for frauds in 0..=5 {
        let response = FraudResponse::new(frauds);
        assert_eq!(response.approved, frauds < 3);
        assert_eq!(response.fraud_fifths, frauds);
    }
}

#[test]
fn bodies_are_fixed_texts() {
    let bodies = [
        r#"{"approved":true,"fraud_score":0.0}"#,
        r#"{"approved":true,"fraud_score":0.2}"#,
        r#"{"approved":true,"fraud_score":0.4}"#,
        r#"{"approved":false,"fraud_score":0.6}"#,
        r#"{"approved":false,"fraud_score":0.8}"#,
        r#"{"approved":false,"fraud_score":1.0}"#,
    ];
    for (frauds, body) in bodies.iter().enumerate() {
        assert_eq!(FraudResponse::new(frauds as u32).body(), *body);
    }
}
