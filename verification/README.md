# iot_auth

The core of an IoT device that authenticates to its server with a
multi-key challenge-response handshake over CoAP, keeps its keys encrypted
at rest under a device secret, rotates them when a session ends, and sends
telemetry encrypted under the session key.

- `src/` is the library, each function with its contract and proof: the
  handshake (`auth_manager`), the key store (`secure_store`), AES-256-CBC and
  HMAC-SHA-256 behind thin wrappers over the `aes`, `cbc`, `cipher`, `hmac`
  and `sha2` crates (`crypto`), CoAP building and parsing (`coap_utils`,
  `communication_manager`), configuration parsing (`config`: JSON-like key
  lists, base64, decimals), the telemetry schedule and the handling of the
  server's answers (`telemetry`), and the arithmetic of the clock, the UART
  hex dump and the MMU set-up.
- `app/` is the firmware shell: the virtio drivers, the smoltcp network
  stack, the system registers, the random source and the main loop. It draws
  the random values the library asks for and carries its messages.
- `tests/` exercise the library on concrete values.
